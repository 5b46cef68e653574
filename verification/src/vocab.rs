use vstd::prelude::*;
use vstd::seq_lib::*;
use crate::error::ParseError;
use crate::text::{
    after_last_colon, chars_vec, decode_json_string, is_unicode_ws, is_ws_char, json_str,
    lemma_after_last_colon, spec_lines, split_lines, tokens,
};

verus! {

/// Id of `w`: the 0-based line position of its last occurrence among
/// `words` (a later duplicate line overwrites an earlier id); `None` when
/// the word is absent.
pub open spec fn word_id(words: Seq<Seq<char>>, w: Seq<char>) -> Option<usize>
    decreases words.len(),
{
    if words.len() == 0 {
        None
    } else if words.last() == w {
        Some((words.len() - 1) as usize)
    } else {
        word_id(words.drop_last(), w)
    }
}

/// The ids of the known terms among `toks`, in source order; unknown terms
/// are silently dropped.
pub open spec fn token_ids(words: Seq<Seq<char>>, toks: Seq<Seq<char>>) -> Seq<usize> {
    toks.filter_map(|t: Seq<char>| word_id(words, t))
}

/// Whether every line decodes as a JSON-encoded string literal.
pub open spec fn all_lines_decode(lines: Seq<Seq<u8>>) -> bool {
    forall|i: int| 0 <= i < lines.len() ==> json_str(#[trigger] lines[i]) is Some
}

/// The decoded text of each line.
pub open spec fn decoded_lines(lines: Seq<Seq<u8>>) -> Seq<Seq<char>> {
    Seq::new(lines.len(), |i: int| json_str(lines[i])->0)
}

/// Word-to-id table: the word on line `i` of the vocabulary file has id `i`.
pub struct Vocabulary {
    words: Vec<Vec<char>>,
}

impl View for Vocabulary {
    type V = Seq<Seq<char>>;

    closed spec fn view(&self) -> Seq<Seq<char>> {
        self.words.deep_view()
    }
}

impl Vocabulary {
    /// Builds the table from the raw bytes of a newline-delimited file where
    /// each line is a JSON-encoded string literal; the word decoded from
    /// line `i` gets id `i`.  Fails if and only if some line is malformed.
    pub fn from_bytes(content: &Vec<u8>) -> (r: Result<Vocabulary, ParseError>)
        ensures
            r matches Ok(v) ==> all_lines_decode(spec_lines(content@)) && v@ == decoded_lines(
                spec_lines(content@),
            ),
            r matches Err(e) ==> !all_lines_decode(spec_lines(content@)) && e
                == ParseError::MalformedLine,
    {
        let lines = split_lines(content);
        let ghost ls = spec_lines(content@);
        let n = lines.len();
        proof {
            assert(lines.deep_view().len() == lines@.len());
        }
        let mut words: Vec<Vec<char>> = Vec::new();
        let mut i: usize = 0;
        while i < n
            invariant
                i <= n,
                n == lines@.len(),
                lines.deep_view() == ls,
                ls == spec_lines(content@),
                forall|j: int| 0 <= j < i ==> json_str(#[trigger] ls[j]) is Some,
                words.deep_view() == decoded_lines(ls).subrange(0, i as int),
            decreases n - i,
        {
            proof {
                assert(lines@[i as int].deep_view() =~= lines@[i as int]@);
                assert(ls[i as int] == lines@[i as int]@);
            }
            let ghost prev = words.deep_view();
            match decode_json_string(&lines[i]) {
                None => {
                    proof {
                        assert(ls.len() == lines@.len());
                        assert(json_str(ls[i as int]) is None);
                        assert(!all_lines_decode(ls));
                    }
                    return Err(ParseError::MalformedLine);
                },
                Some(s) => {
                    let w = chars_vec(s.as_str());
                    proof {
                        assert(w.deep_view() =~= w@);
                    }
                    words.push(w);
                    proof {
                        assert(words.deep_view() =~= prev.push(json_str(ls[i as int])->0));
                        assert(prev.push(json_str(ls[i as int])->0) =~= decoded_lines(ls).subrange(
                            0,
                            i as int + 1,
                        ));
                    }
                },
            }
            i = i + 1;
        }
        proof {
            assert(decoded_lines(ls).subrange(0, n as int) =~= decoded_lines(ls));
        }
        Ok(Vocabulary { words })
    }

    /// Number of words in the table (counting duplicate lines separately).
    pub fn len(&self) -> (r: usize)
        ensures
            r == self@.len(),
    {
        proof {
            assert(self@.len() == self.words@.len());
        }
        self.words.len()
    }

    /// Looks `w` up; on duplicate words the id of the last occurrence wins.
    pub fn get(&self, w: &Vec<char>) -> (r: Option<usize>)
        ensures
            r == word_id(self@, w@),
    {
        let n = self.words.len();
        proof {
            assert(self@.subrange(0, n as int) =~= self@);
        }
        let mut j: usize = n;
        while j > 0
            invariant
                j <= n,
                n == self@.len(),
                n == self.words@.len(),
                word_id(self@, w@) == word_id(self@.subrange(0, j as int), w@),
            decreases j,
        {
            j = j - 1;
            let ghost sub = self@.subrange(0, j as int + 1);
            proof {
                assert(self@[j as int] == self.words@[j as int].deep_view());
                assert(self.words@[j as int].deep_view() =~= self.words@[j as int]@);
                assert(sub.last() == self@[j as int]);
                assert(sub.drop_last() =~= self@.subrange(0, j as int));
            }
            if chars_eq(&self.words[j], w) {
                return Some(j);
            }
        }
        proof {
            assert(self@.subrange(0, 0) =~= Seq::<Seq<char>>::empty());
        }
        None
    }

    /// Tokenizes one decoded query line against this table: the text after
    /// the last `:` is split on whitespace, and each term the table knows
    /// contributes its id, in order of appearance; unknown terms are
    /// dropped.
    pub fn tokenize_line(&self, line: &str) -> (r: Vec<usize>)
        ensures
            r@ == token_ids(self@, tokens(after_last_colon(line@))),
    {
        let cs = chars_vec(line);
        self.tokenize_chars(&cs)
    }

    /// As `tokenize_line`, on the line's characters.
    pub fn tokenize_chars(&self, cs: &Vec<char>) -> (r: Vec<usize>)
        ensures
            r@ == token_ids(self@, tokens(after_last_colon(cs@))),
    {
        let n = cs.len();
        // position right after the last ':' (0 when there is none)
        let mut cut: usize = 0;
        let mut i: usize = 0;
        while i < n
            invariant
                i <= n,
                n == cs@.len(),
                cut <= i,
                cut > 0 ==> cs@[cut - 1] == ':',
                forall|k: int| cut <= k < i ==> cs@[k] != ':',
            decreases n - i,
        {
            if cs[i] == ':' {
                cut = i + 1;
            }
            i = i + 1;
        }
        let ghost text = after_last_colon(cs@);
        proof {
            lemma_after_last_colon(cs@, cut as int);
        }
        let m = n - cut;
        let mut ids: Vec<usize> = Vec::new();
        let mut cur: Vec<char> = Vec::new();
        let mut p: usize = 0;
        while p < m
            invariant
                p <= m,
                n == cs@.len(),
                cut + m == n,
                text == cs@.subrange(cut as int, n as int),
                cur@.len() == 0 ==> (p == 0 || is_unicode_ws(text[p - 1])) && ids@ == token_ids(
                    self@,
                    tokens(text.subrange(0, p as int)),
                ),
                cur@.len() > 0 ==> !is_unicode_ws(text[p - 1]) && tokens(
                    text.subrange(0, p as int),
                ).len() > 0 && tokens(text.subrange(0, p as int)).last() == cur@ && ids@
                    == token_ids(self@, tokens(text.subrange(0, p as int)).drop_last()),
            decreases m - p,
        {
            let c = cs[cut + p];
            let ghost pref = text.subrange(0, p as int);
            let ghost pref2 = text.subrange(0, p as int + 1);
            proof {
                assert(text[p as int] == cs@[cut + p]);
                assert(pref2.drop_last() =~= pref);
                assert(pref2.last() == text[p as int]);
            }
            if is_ws_char(c) {
                if cur.len() > 0 {
                    let ghost tk = tokens(pref);
                    proof {
                        // token_ids unfolds over the last (now finished) term
                        assert(tk.drop_last().filter_map(
                            |t: Seq<char>| word_id(self@, t),
                        ) == ids@);
                    }
                    push_term_id(&mut ids, &cur, self);
                    proof {
                        lemma_token_ids_step(self@, tk);
                    }
                    cur = Vec::new();
                }
                proof {
                    assert(tokens(pref2) == tokens(pref));
                }
            } else {
                if cur.len() == 0 {
                    let ghost tk = tokens(pref);
                    cur.push(c);
                    proof {
                        assert(cur@ =~= seq![c]);
                        assert(tokens(pref2) == tk.push(seq![c]));
                        assert(tk.push(seq![c]).drop_last() =~= tk);
                    }
                } else {
                    let ghost tk = tokens(pref);
                    cur.push(c);
                    proof {
                        assert(tokens(pref2) == tk.update(tk.len() - 1, tk.last().push(c)));
                        assert(tokens(pref2).last() == cur@);
                        assert(tokens(pref2).drop_last() =~= tk.drop_last());
                    }
                }
            }
            p = p + 1;
        }
        proof {
            assert(text.subrange(0, m as int) =~= text);
        }
        if cur.len() > 0 {
            let ghost tk = tokens(text);
            proof {
                assert(tk.drop_last().filter_map(|t: Seq<char>| word_id(self@, t)) == ids@);
            }
            push_term_id(&mut ids, &cur, self);
            proof {
                lemma_token_ids_step(self@, tk);
            }
        }
        ids
    }
}

/// Appends the id of `term` to `ids` when the vocabulary knows it, and
/// leaves `ids` unchanged otherwise.
fn push_term_id(ids: &mut Vec<usize>, term: &Vec<char>, vocab: &Vocabulary)
    ensures
        word_id(vocab@, term@) matches Some(id) ==> final(ids)@ == old(ids)@.push(id),
        word_id(vocab@, term@) is None ==> final(ids)@ == old(ids)@,
{
    match vocab.get(term) {
        Some(id) => ids.push(id),
        None => {},
    }
}

/// Unfolds `token_ids` over a term list's last element.
proof fn lemma_token_ids_step(words: Seq<Seq<char>>, tk: Seq<Seq<char>>)
    requires
        tk.len() > 0,
    ensures
        word_id(words, tk.last()) matches Some(id) ==> token_ids(words, tk) == token_ids(
            words,
            tk.drop_last(),
        ).push(id),
        word_id(words, tk.last()) is None ==> token_ids(words, tk) == token_ids(
            words,
            tk.drop_last(),
        ),
{
    let f = |t: Seq<char>| word_id(words, t);
    match f(tk.last()) {
        Some(id) => {
            assert(tk.filter_map(f) == tk.drop_last().filter_map(f) + seq![id]);
            assert(tk.drop_last().filter_map(f) + seq![id] =~= tk.drop_last().filter_map(f).push(
                id,
            ));
        },
        None => {},
    }
}

/// Compares two character vectors.
fn chars_eq(a: &Vec<char>, b: &Vec<char>) -> (r: bool)
    ensures
        r == (a@ == b@),
{
    if a.len() != b.len() {
        return false;
    }
    let n = a.len();
    let mut i: usize = 0;
    while i < n
        invariant
            i <= n,
            n == a@.len(),
            n == b@.len(),
            forall|j: int| 0 <= j < i ==> a@[j] == b@[j],
        decreases n - i,
    {
        if a[i] != b[i] {
            return false;
        }
        i = i + 1;
    }
    proof {
        assert(a@ =~= b@);
    }
    true
}

/// With no duplicate words, ids match line order exactly: a vocabulary of
/// `k` lines maps the word on line `i` to id `i`, for every `i < k`.
pub proof fn lemma_ids_match_line_order(words: Seq<Seq<char>>, i: int)
    requires
        0 <= i < words.len(),
        words.len() <= usize::MAX,
        forall|j: int, k: int| 0 <= j < k < words.len() ==> words[j] != words[k],
    ensures
        word_id(words, words[i]) == Some(i as usize),
    decreases words.len(),
{
    if i < words.len() - 1 {
        assert(words.last() != words[i]);
        assert(forall|j: int, k: int|
            0 <= j < k < words.drop_last().len() ==> words.drop_last()[j] != words.drop_last()[k]);
        lemma_ids_match_line_order(words.drop_last(), i);
        assert(words.drop_last()[i] == words[i]);
    }
}

/// Tokens keep their source order and never include an unknown term: the id
/// sequence of `toks` is exactly the known terms of `toks`, in order, each
/// replaced by its id; and every id in it is the id of some source term.
pub proof fn lemma_token_ids_in_source_order(words: Seq<Seq<char>>, toks: Seq<Seq<char>>)
    ensures
        token_ids(words, toks) == toks.filter(
            |t: Seq<char>| word_id(words, t) is Some,
        ).map_values(|t: Seq<char>| word_id(words, t)->0),
        forall|k: int|
            0 <= k < token_ids(words, toks).len() ==> exists|j: int|
                0 <= j < toks.len() && word_id(words, #[trigger] toks[j]) == Some(
                    #[trigger] token_ids(words, toks)[k],
                ),
    decreases toks.len(),
{
    reveal(Seq::filter);
    let p = |t: Seq<char>| word_id(words, t) is Some;
    let f = |t: Seq<char>| word_id(words, t);
    let g = |t: Seq<char>| word_id(words, t)->0;
    if toks.len() == 0 {
        assert(token_ids(words, toks) =~= toks.filter(p).map_values(g));
    } else {
        let rest = toks.drop_last();
        lemma_token_ids_in_source_order(words, rest);
        if p(toks.last()) {
            assert(toks.filter(p) == rest.filter(p).push(toks.last()));
            assert(toks.filter(p).map_values(g) =~= rest.filter(p).map_values(g).push(
                g(toks.last()),
            ));
            assert(token_ids(words, toks) =~= token_ids(words, rest).push(g(toks.last())));
        } else {
            assert(token_ids(words, toks) == token_ids(words, rest));
        }
        assert forall|k: int| 0 <= k < token_ids(words, toks).len() implies exists|j: int|
            0 <= j < toks.len() && word_id(words, #[trigger] toks[j]) == Some(
                #[trigger] token_ids(words, toks)[k],
            ) by {
            if k < token_ids(words, rest).len() {
                let j = choose|j: int|
                    0 <= j < rest.len() && word_id(words, #[trigger] rest[j]) == Some(
                        token_ids(words, rest)[k],
                    );
                assert(toks[j] == rest[j]);
                assert(word_id(words, toks[j]) == Some(token_ids(words, toks)[k]));
            } else {
                let j = toks.len() - 1;
                assert(word_id(words, toks[j]) == Some(token_ids(words, toks)[k]));
            }
        }
    }
}

/// A line whose terms are all unknown yields the empty id sequence: unknown
/// words are dropped, never an error.
pub proof fn lemma_all_unknown_is_empty(words: Seq<Seq<char>>, toks: Seq<Seq<char>>)
    requires
        forall|j: int| 0 <= j < toks.len() ==> word_id(words, #[trigger] toks[j]) is None,
    ensures
        token_ids(words, toks).len() == 0,
    decreases toks.len(),
{
    if toks.len() > 0 {
        assert(forall|j: int|
            0 <= j < toks.drop_last().len() ==> word_id(words, #[trigger] toks.drop_last()[j])
                is None);
        lemma_all_unknown_is_empty(words, toks.drop_last());
    }
}

} // verus!
