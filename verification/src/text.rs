use vstd::prelude::*;
use vstd::string::StrSliceExecFns;

verus! {

// ---------------------------------------------------------------------------
// Splitting a byte stream into lines
// ---------------------------------------------------------------------------
/// One finished line: a carriage return directly before the terminating
/// newline is stripped.
pub open spec fn strip_cr(l: Seq<u8>) -> Seq<u8> {
    if l.len() > 0 && l[l.len() - 1] == 13 {
        l.drop_last()
    } else {
        l
    }
}

/// The lines of `b` after the partial line `cur` has already been read.
pub open spec fn lines_rec(b: Seq<u8>, cur: Seq<u8>) -> Seq<Seq<u8>>
    decreases b.len(),
{
    if b.len() == 0 {
        if cur.len() == 0 {
            Seq::empty()
        } else {
            seq![cur]
        }
    } else if b[0] == 10 {
        seq![strip_cr(cur)] + lines_rec(b.drop_first(), Seq::empty())
    } else {
        lines_rec(b.drop_first(), cur.push(b[0]))
    }
}

/// The lines of `b`, split on newline bytes: each line loses its newline and
/// a carriage return directly before it; a final line without a terminating
/// newline is kept as it stands; a terminating newline adds no empty line.
pub open spec fn spec_lines(b: Seq<u8>) -> Seq<Seq<u8>> {
    lines_rec(b, Seq::empty())
}

/// Splits `b` into its lines, as `spec_lines` describes them.
pub fn split_lines(b: &Vec<u8>) -> (r: Vec<Vec<u8>>)
    ensures
        r.deep_view() == spec_lines(b@),
{
    let n = b.len();
    let mut r: Vec<Vec<u8>> = Vec::new();
    let mut cur: Vec<u8> = Vec::new();
    let mut i: usize = 0;
    proof {
        assert(b@.subrange(0, n as int) =~= b@);
    }
    while i < n
        invariant
            i <= n,
            n == b@.len(),
            spec_lines(b@) == r.deep_view() + lines_rec(b@.subrange(i as int, n as int), cur@),
        decreases n - i,
    {
        let ghost rest = b@.subrange(i as int, n as int);
        let ghost prev = r.deep_view();
        let ghost old_cur = cur@;
        let c = b[i];
        proof {
            assert(rest[0] == c);
            assert(rest.drop_first() =~= b@.subrange(i as int + 1, n as int));
        }
        if c == 10 {
            let mut line = cur;
            cur = Vec::new();
            if line.len() > 0 && line[line.len() - 1] == 13 {
                line.pop();
            }
            proof {
                assert(line@ =~= strip_cr(old_cur));
                assert(line.deep_view() =~= line@);
            }
            r.push(line);
            proof {
                assert(r.deep_view() =~= prev.push(strip_cr(old_cur)));
                assert(prev.push(strip_cr(old_cur)) + lines_rec(rest.drop_first(), Seq::empty())
                    =~= prev + (seq![strip_cr(old_cur)] + lines_rec(
                    rest.drop_first(),
                    Seq::empty(),
                )));
            }
        } else {
            cur.push(c);
        }
        i = i + 1;
    }
    proof {
        assert(b@.subrange(n as int, n as int) =~= Seq::<u8>::empty());
    }
    if cur.len() > 0 {
        let ghost prev = r.deep_view();
        let ghost last = cur@;
        proof {
            assert(cur.deep_view() =~= cur@);
        }
        r.push(cur);
        proof {
            assert(r.deep_view() =~= prev.push(last));
            assert(prev.push(last) =~= prev + seq![last]);
        }
    } else {
        proof {
            assert(r.deep_view() + Seq::<Seq<u8>>::empty() =~= r.deep_view());
        }
    }
    r
}

// ---------------------------------------------------------------------------
// Characters
// ---------------------------------------------------------------------------
/// The characters of `s`, in order, as a vector.
pub fn chars_vec(s: &str) -> (r: Vec<char>)
    ensures
        r@ == s@,
{
    let n = s.unicode_len();
    let mut r: Vec<char> = Vec::new();
    let mut i: usize = 0;
    while i < n
        invariant
            i <= n,
            n == s@.len(),
            r@ == s@.subrange(0, i as int),
        decreases n - i,
    {
        let c = s.get_char(i);
        r.push(c);
        proof {
            assert(r@ =~= s@.subrange(0, i as int + 1));
        }
        i = i + 1;
    }
    proof {
        assert(s@.subrange(0, n as int) =~= s@);
    }
    r
}

// ---------------------------------------------------------------------------
// Whitespace
// ---------------------------------------------------------------------------
/// Whether `c` has the Unicode `White_Space` property, as
/// `char::is_whitespace` decides it.
pub uninterp spec fn is_unicode_ws(c: char) -> bool;

/// Relies on `char::is_whitespace`: whether `c` has the Unicode
/// `White_Space` property, a function of the character alone.
#[verifier::external_body]
pub(crate) fn is_ws_char(c: char) -> (r: bool)
    ensures
        r == is_unicode_ws(c),
{
    c.is_whitespace()
}

// ---------------------------------------------------------------------------
// JSON string literals
// ---------------------------------------------------------------------------
/// What decoding `bytes` as one JSON-encoded string literal yields: the
/// decoded text when `bytes` is UTF-8 holding a valid JSON string literal,
/// and `None` otherwise.
pub uninterp spec fn json_str(bytes: Seq<u8>) -> Option<Seq<char>>;

/// Relies on `serde_json::from_slice::<String>`: decodes one JSON string
/// literal; the result depends on the input bytes alone.
#[verifier::external_body]
pub(crate) fn decode_json_string(bytes: &Vec<u8>) -> (r: Option<String>)
    ensures
        r is Some <==> json_str(bytes@) is Some,
        r matches Some(s) ==> json_str(bytes@) == Some(s@),
{
    serde_json::from_slice::<String>(bytes.as_slice()).ok()
}

// ---------------------------------------------------------------------------
// Query text: last-colon split and whitespace terms
// ---------------------------------------------------------------------------
/// The text after the last `:` of `s`; all of `s` when it has no `:`.
/// This strips a leading query-id/prefix field from a query-log line.
pub open spec fn after_last_colon(s: Seq<char>) -> Seq<char>
    decreases s.len(),
{
    if s.len() == 0 {
        s
    } else if s[s.len() - 1] == ':' {
        Seq::empty()
    } else {
        after_last_colon(s.drop_last()).push(s[s.len() - 1])
    }
}

/// When no `:` occurs at or after `cut`, and `cut` is 0 or sits right after
/// a `:`, the text after the last colon is exactly the suffix from `cut`.
pub proof fn lemma_after_last_colon(s: Seq<char>, cut: int)
    requires
        0 <= cut <= s.len(),
        forall|j: int| cut <= j < s.len() ==> s[j] != ':',
        cut > 0 ==> s[cut - 1] == ':',
    ensures
        after_last_colon(s) == s.subrange(cut, s.len() as int),
    decreases s.len(),
{
    if s.len() == 0 {
        assert(after_last_colon(s) =~= s.subrange(cut, s.len() as int));
    } else if cut == s.len() {
        assert(s[cut - 1] == ':');
        assert(after_last_colon(s) =~= s.subrange(cut, s.len() as int));
    } else {
        let t = s.drop_last();
        assert(s[s.len() - 1] != ':');
        assert(forall|j: int| cut <= j < t.len() ==> t[j] == s[j] && s[j] != ':');
        if cut > 0 {
            assert(t[cut - 1] == s[cut - 1]);
        }
        lemma_after_last_colon(t, cut);
        assert(after_last_colon(s) == t.subrange(cut, t.len() as int).push(s[s.len() - 1]));
        assert(t.subrange(cut, t.len() as int).push(s[s.len() - 1]) =~= s.subrange(
            cut,
            s.len() as int,
        ));
    }
}

/// The whitespace-separated terms of `s`, in order of appearance: maximal
/// runs of non-whitespace characters.
pub open spec fn tokens(s: Seq<char>) -> Seq<Seq<char>>
    decreases s.len(),
{
    if s.len() == 0 {
        Seq::empty()
    } else {
        let c = s[s.len() - 1];
        let r = tokens(s.drop_last());
        if is_unicode_ws(c) {
            r
        } else if s.len() >= 2 && !is_unicode_ws(s[s.len() - 2]) {
            r.update(r.len() - 1, r[r.len() - 1].push(c))
        } else {
            r.push(seq![c])
        }
    }
}

} // verus!
