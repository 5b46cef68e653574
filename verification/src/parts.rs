use vstd::prelude::*;
use vstd::relations::{sorted_by, total_ordering};
use vstd::seq_lib::*;
use crate::error::ParseError;
use crate::text::{after_last_colon, chars_vec, decode_json_string, json_str, spec_lines,
    split_lines, tokens};
use crate::vocab::{all_lines_decode, token_ids, Vocabulary};
use rayon::iter::{IndexedParallelIterator, IntoParallelRefIterator, ParallelIterator};

verus! {

/// One input part of a query-log dataset: the part's path and its raw
/// bytes, exactly as they stand on disk.
pub struct Part {
    pub name: Vec<u8>,
    pub content: Vec<u8>,
}

/// A part as the specifications see it: the pair of its name and content.
pub type PartView = (Seq<u8>, Seq<u8>);

impl View for Part {
    type V = PartView;

    open spec fn view(&self) -> PartView {
        (self.name@, self.content@)
    }
}

/// The parts of a listing, as the specifications see them.
pub open spec fn parts_view(s: Seq<Part>) -> Seq<PartView> {
    s.map_values(|p: Part| p@)
}

// ---------------------------------------------------------------------------
// Lexicographic order of parts
// ---------------------------------------------------------------------------
/// Lexicographic byte order, `a <= b`.
pub open spec fn lex_le(a: Seq<u8>, b: Seq<u8>) -> bool
    decreases a.len(),
{
    if a.len() == 0 {
        true
    } else if b.len() == 0 {
        false
    } else if a[0] < b[0] {
        true
    } else if a[0] > b[0] {
        false
    } else {
        lex_le(a.drop_first(), b.drop_first())
    }
}

/// Parts are ordered by ascending name; equal names (which a directory
/// listing cannot produce) are broken by content, so that the order is
/// total.
pub open spec fn part_le(p: PartView, q: PartView) -> bool {
    if p.0 != q.0 {
        lex_le(p.0, q.0)
    } else {
        lex_le(p.1, q.1)
    }
}

/// `part_le` as a function value, for `sort_by`.
pub open spec fn part_le_fn() -> spec_fn(PartView, PartView) -> bool {
    |p: PartView, q: PartView| part_le(p, q)
}

pub proof fn lemma_lex_le_reflexive(a: Seq<u8>)
    ensures
        lex_le(a, a),
    decreases a.len(),
{
    if a.len() > 0 {
        lemma_lex_le_reflexive(a.drop_first());
    }
}

pub proof fn lemma_lex_le_antisymmetric(a: Seq<u8>, b: Seq<u8>)
    requires
        lex_le(a, b),
        lex_le(b, a),
    ensures
        a == b,
    decreases a.len(),
{
    if a.len() == 0 {
        assert(a =~= b);
    } else {
        assert(b.len() > 0);
        assert(a[0] == b[0]);
        lemma_lex_le_antisymmetric(a.drop_first(), b.drop_first());
        assert(a =~= b) by {
            assert(forall|i: int|
                1 <= i < a.len() ==> a[i] == a.drop_first()[i - 1] && b[i] == b.drop_first()[i
                    - 1]);
        }
    }
}

pub proof fn lemma_lex_le_transitive(a: Seq<u8>, b: Seq<u8>, c: Seq<u8>)
    requires
        lex_le(a, b),
        lex_le(b, c),
    ensures
        lex_le(a, c),
    decreases a.len(),
{
    if a.len() == 0 {
    } else {
        assert(b.len() > 0);
        assert(c.len() > 0);
        if a[0] == b[0] && b[0] == c[0] {
            lemma_lex_le_transitive(a.drop_first(), b.drop_first(), c.drop_first());
        }
    }
}

pub proof fn lemma_lex_le_connected(a: Seq<u8>, b: Seq<u8>)
    ensures
        lex_le(a, b) || lex_le(b, a),
    decreases a.len(),
{
    if a.len() > 0 && b.len() > 0 && a[0] == b[0] {
        lemma_lex_le_connected(a.drop_first(), b.drop_first());
    }
}

/// The part order is a total ordering, so every listing has exactly one
/// sorted arrangement.
pub proof fn lemma_part_le_total_ordering()
    ensures
        total_ordering(part_le_fn()),
{
    let leq = part_le_fn();
    assert forall|p: PartView| #[trigger] leq(p, p) by {
        lemma_lex_le_reflexive(p.1);
    }
    assert forall|p: PartView, q: PartView| #[trigger] leq(p, q) && #[trigger] leq(q, p) implies p
        == q by {
        if p.0 != q.0 {
            lemma_lex_le_antisymmetric(p.0, q.0);
        } else {
            lemma_lex_le_antisymmetric(p.1, q.1);
        }
    }
    assert forall|p: PartView, q: PartView, s: PartView|
        #[trigger] leq(p, q) && #[trigger] leq(q, s) implies leq(p, s) by {
        if p.0 == q.0 && q.0 == s.0 {
            lemma_lex_le_transitive(p.1, q.1, s.1);
        } else if p.0 != q.0 && q.0 != s.0 {
            lemma_lex_le_transitive(p.0, q.0, s.0);
            if p.0 == s.0 {
                lemma_lex_le_antisymmetric(p.0, q.0);
            }
        }
    }
    assert forall|p: PartView, q: PartView| #[trigger] leq(p, q) || #[trigger] leq(q, p) by {
        if p.0 != q.0 {
            lemma_lex_le_connected(p.0, q.0);
        } else {
            lemma_lex_le_connected(p.1, q.1);
        }
    }
}

/// Skipping an equal prefix does not change the order of two byte strings.
proof fn lemma_lex_le_skip(a: Seq<u8>, b: Seq<u8>, i: int)
    requires
        0 <= i <= a.len(),
        i <= b.len(),
        forall|j: int| 0 <= j < i ==> a[j] == b[j],
    ensures
        lex_le(a, b) == lex_le(a.subrange(i, a.len() as int), b.subrange(i, b.len() as int)),
    decreases i,
{
    if i == 0 {
        assert(a.subrange(0, a.len() as int) =~= a);
        assert(b.subrange(0, b.len() as int) =~= b);
    } else {
        assert(a.len() > 0 && b.len() > 0 && a[0] == b[0]);
        assert(lex_le(a, b) == lex_le(a.drop_first(), b.drop_first()));
        assert(forall|j: int|
            0 <= j < i - 1 ==> a.drop_first()[j] == a[j + 1] && b.drop_first()[j] == b[j + 1]);
        lemma_lex_le_skip(a.drop_first(), b.drop_first(), i - 1);
        assert(a.drop_first().subrange(i - 1, a.drop_first().len() as int) =~= a.subrange(
            i,
            a.len() as int,
        ));
        assert(b.drop_first().subrange(i - 1, b.drop_first().len() as int) =~= b.subrange(
            i,
            b.len() as int,
        ));
    }
}

/// Compares two byte strings lexicographically.
fn lex_le_bytes(a: &Vec<u8>, b: &Vec<u8>) -> (r: bool)
    ensures
        r == lex_le(a@, b@),
{
    let an = a.len();
    let bn = b.len();
    let mut i: usize = 0;
    while i < an && i < bn
        invariant
            i <= an,
            i <= bn,
            an == a@.len(),
            bn == b@.len(),
            forall|j: int| 0 <= j < i ==> a@[j] == b@[j],
        decreases an - i,
    {
        proof {
            lemma_lex_le_skip(a@, b@, i as int);
        }
        if a[i] < b[i] {
            return true;
        }
        if a[i] > b[i] {
            return false;
        }
        i = i + 1;
    }
    proof {
        lemma_lex_le_skip(a@, b@, i as int);
    }
    an <= bn
}

/// Compares two byte strings for equality.
fn bytes_eq(a: &Vec<u8>, b: &Vec<u8>) -> (r: bool)
    ensures
        r == (a@ == b@),
{
    if a.len() != b.len() {
        return false;
    }
    let n = a.len();
    let mut i: usize = 0;
    while i < n
        invariant
            i <= n,
            n == a@.len(),
            n == b@.len(),
            forall|j: int| 0 <= j < i ==> a@[j] == b@[j],
        decreases n - i,
    {
        if a[i] != b[i] {
            return false;
        }
        i = i + 1;
    }
    proof {
        assert(a@ =~= b@);
    }
    true
}

/// Compares two parts in the part order.
fn part_le_exec(p: &Part, q: &Part) -> (r: bool)
    ensures
        r == part_le(p@, q@),
{
    if bytes_eq(&p.name, &q.name) {
        lex_le_bytes(&p.content, &q.content)
    } else {
        lex_le_bytes(&p.name, &q.name)
    }
}

// ---------------------------------------------------------------------------
// Sorting the parts
// ---------------------------------------------------------------------------
/// Sorts parts into ascending lexicographic order of their paths: the
/// result is the one sorted arrangement of the given parts.
pub fn sort_parts(parts: Vec<Part>) -> (r: Vec<Part>)
    ensures
        parts_view(r@) == parts_view(parts@).sort_by(part_le_fn()),
{
    broadcast use vstd::seq_lib::group_to_multiset_ensures;
    broadcast use vstd::multiset::group_multiset_axioms;

    let ghost orig = parts_view(parts@);
    let mut src = parts;
    let mut r: Vec<Part> = Vec::new();
    proof {
        assert(parts_view(r@) =~= Seq::<PartView>::empty());
        assert(parts_view(r@).to_multiset().add(parts_view(src@).to_multiset()) =~= orig
            .to_multiset());
    }
    while src.len() > 0
        invariant
            parts_view(r@).to_multiset().add(parts_view(src@).to_multiset()) == orig.to_multiset(),
            sorted_by(parts_view(r@), part_le_fn()),
        decreases src@.len(),
    {
        let ghost old_src = src@;
        let ghost old_r = parts_view(r@);
        let p = src.remove(0);
        proof {
            assert(parts_view(src@) =~= parts_view(old_src).remove(0));
            assert(parts_view(old_src)[0] == p@);
            to_multiset_remove(parts_view(old_src), 0);
            to_multiset_contains(parts_view(old_src), p@);
            assert(parts_view(old_src).contains(p@));
            assert(old_r.to_multiset().add(parts_view(src@).to_multiset().insert(p@)) =~= old_r
                .to_multiset().add(parts_view(old_src).to_multiset()));
        }
        let mut k: usize = r.len();
        while k > 0 && !part_le_exec(&r[k - 1], &p)
            invariant
                k <= r@.len(),
                parts_view(r@) == old_r,
                sorted_by(old_r, part_le_fn()),
                old_r.to_multiset().add(parts_view(src@).to_multiset().insert(p@)) == orig
                    .to_multiset(),
                forall|j: int| k <= j < old_r.len() ==> part_le(p@, #[trigger] old_r[j]),
            decreases k,
        {
            proof {
                lemma_lex_le_connected(old_r[k - 1].0, p@.0);
                lemma_lex_le_connected(old_r[k - 1].1, p@.1);
                assert(part_le(p@, old_r[k - 1]));
            }
            k = k - 1;
        }
        proof {
            // everything left of the insertion point is below the new part
            lemma_part_le_total_ordering();
            if k > 0 {
                assert(part_le_fn()(old_r[k - 1], p@));
                assert forall|j: int| 0 <= j < k implies part_le(#[trigger] old_r[j], p@) by {
                    if j < k - 1 {
                        assert(part_le_fn()(old_r[j], old_r[k - 1]));
                        assert(part_le_fn()(old_r[j], p@));
                    }
                }
            }
        }
        r.insert(k, p);
        proof {
            assert(parts_view(r@) =~= old_r.insert(k as int, p@));
            to_multiset_insert(old_r, k as int, p@);
            assert(parts_view(r@).to_multiset().add(parts_view(src@).to_multiset()) =~= orig
                .to_multiset());
            assert forall|i: int, j: int|
                0 <= i < j < parts_view(r@).len() implies #[trigger] part_le_fn()(
                parts_view(r@)[i],
                parts_view(r@)[j],
            ) by {
                let s = old_r.insert(k as int, p@);
                if j < k {
                    assert(s[i] == old_r[i] && s[j] == old_r[j]);
                    assert(part_le_fn()(old_r[i], old_r[j]));
                } else if i > k {
                    assert(s[i] == old_r[i - 1] && s[j] == old_r[j - 1]);
                    assert(part_le_fn()(old_r[i - 1], old_r[j - 1]));
                } else if i < k && j == k {
                    assert(s[i] == old_r[i] && s[j] == p@);
                    assert(part_le(old_r[i], p@));
                } else if i == k && j > k {
                    assert(s[i] == p@ && s[j] == old_r[j - 1]);
                    assert(part_le(p@, old_r[j - 1]));
                } else if i < k && j > k {
                    assert(s[i] == old_r[i] && s[j] == old_r[j - 1]);
                    assert(part_le_fn()(old_r[i], p@));
                    assert(part_le_fn()(p@, old_r[j - 1]));
                    assert(part_le_fn()(old_r[i], old_r[j - 1]));
                }
            }
        }
    }
    proof {
        assert(parts_view(src@) =~= Seq::<PartView>::empty());
        assert(parts_view(r@).to_multiset() =~= orig.to_multiset());
        lemma_part_le_total_ordering();
        orig.lemma_sort_by_ensures(part_le_fn());
        lemma_sorted_unique(parts_view(r@), orig.sort_by(part_le_fn()), part_le_fn());
    }
    r
}

// ---------------------------------------------------------------------------
// Gzip transport
// ---------------------------------------------------------------------------
/// Whether a part name carries the `.gz` suffix that marks gzip transport.
pub open spec fn is_gz_name(name: Seq<u8>) -> bool {
    name.len() >= 3 && name[name.len() - 3] == 46 && name[name.len() - 2] == 103 && name[name.len()
        - 1] == 122
}

fn has_gz_suffix(name: &Vec<u8>) -> (r: bool)
    ensures
        r == is_gz_name(name@),
{
    let n = name.len();
    n >= 3 && name[n - 3] == 46 && name[n - 2] == 103 && name[n - 1] == 122
}

/// What gzip-decompressing `bytes` yields: the decompressed stream when
/// `bytes` is a valid gzip file, `None` otherwise.
pub uninterp spec fn gunzip(bytes: Seq<u8>) -> Option<Seq<u8>>;

/// Relies on `flate2::read::GzDecoder` (read through
/// `std::io::Read::read_to_end`): decompresses one gzip stream; the result
/// depends on the input bytes alone.
#[verifier::external_body]
pub(crate) fn gunzip_bytes(bytes: &Vec<u8>) -> (r: Option<Vec<u8>>)
    ensures
        r is Some <==> gunzip(bytes@) is Some,
        r matches Some(d) ==> gunzip(bytes@) == Some(d@),
{
    let mut decoder = flate2::read::GzDecoder::new(bytes.as_slice());
    let mut out = Vec::new();
    match std::io::Read::read_to_end(&mut decoder, &mut out) {
        Ok(_) => Some(out),
        Err(_) => None,
    }
}

// ---------------------------------------------------------------------------
// The dataset of one part
// ---------------------------------------------------------------------------
/// The decompressed text of a part: a `.gz`-named part is gunzipped, any
/// other is taken as it stands.
pub open spec fn part_text(pv: PartView) -> Option<Seq<u8>> {
    if is_gz_name(pv.0) {
        gunzip(pv.1)
    } else {
        Some(pv.1)
    }
}

/// The id sequence of one line of query-log text.
pub open spec fn line_ids(words: Seq<Seq<char>>, line: Seq<u8>) -> Seq<usize> {
    token_ids(words, tokens(after_last_colon(json_str(line)->0)))
}

/// The dataset of decompressed query-log text: one id sequence per line, in
/// line order; `MalformedLine` when some line is not a JSON string literal.
pub open spec fn lines_result(words: Seq<Seq<char>>, text: Seq<u8>) -> Result<
    Seq<Seq<usize>>,
    ParseError,
> {
    let ls = spec_lines(text);
    if all_lines_decode(ls) {
        Ok(Seq::new(ls.len(), |i: int| line_ids(words, ls[i])))
    } else {
        Err(ParseError::MalformedLine)
    }
}

/// The dataset of one part: `InvalidGzip` when a `.gz` part does not
/// decompress, otherwise the dataset of its text.
pub open spec fn part_result(words: Seq<Seq<char>>, pv: PartView) -> Result<
    Seq<Seq<usize>>,
    ParseError,
> {
    match part_text(pv) {
        None => Err(ParseError::InvalidGzip),
        Some(text) => lines_result(words, text),
    }
}

/// Ordered collection of token-id sequences, one per query.
pub struct QueryDataset {
    pub queries: Vec<Vec<usize>>,
}

impl View for QueryDataset {
    type V = Seq<Seq<usize>>;

    open spec fn view(&self) -> Seq<Seq<usize>> {
        self.queries.deep_view()
    }
}

impl QueryDataset {
    /// Number of queries.
    pub fn len(&self) -> (r: usize)
        ensures
            r == self@.len(),
    {
        proof {
            assert(self@.len() == self.queries@.len());
        }
        self.queries.len()
    }
}

/// Whether the outcome `r` carries exactly the value or error that
/// `expected` describes.
pub open spec fn result_matches(
    expected: Result<Seq<Seq<usize>>, ParseError>,
    r: Result<QueryDataset, ParseError>,
) -> bool {
    match r {
        Ok(ds) => expected == Ok::<Seq<Seq<usize>>, ParseError>(ds@),
        Err(e) => expected == Err::<Seq<Seq<usize>>, ParseError>(e),
    }
}

/// Whether `r` is the outcome `part_result` describes for this part.
pub open spec fn part_result_matches(
    words: Seq<Seq<char>>,
    pv: PartView,
    r: Result<QueryDataset, ParseError>,
) -> bool {
    result_matches(part_result(words, pv), r)
}

/// Tokenizes decompressed query-log text, line by line.
fn tokenize_text(text: &Vec<u8>, vocab: &Vocabulary) -> (r: Result<QueryDataset, ParseError>)
    ensures
        result_matches(lines_result(vocab@, text@), r),
{
    let lines = split_lines(text);
    let ghost ls = spec_lines(text@);
    let n = lines.len();
    let mut queries: Vec<Vec<usize>> = Vec::new();
    let mut i: usize = 0;
    while i < n
        invariant
            i <= n,
            n == lines@.len(),
            lines.deep_view() == ls,
            ls == spec_lines(text@),
            forall|j: int| 0 <= j < i ==> json_str(#[trigger] ls[j]) is Some,
            queries.deep_view() == Seq::new(i as nat, |j: int| line_ids(vocab@, ls[j])),
        decreases n - i,
    {
        proof {
            assert(lines@[i as int].deep_view() =~= lines@[i as int]@);
            assert(ls[i as int] == lines@[i as int]@);
        }
        let ghost prev = queries.deep_view();
        match decode_json_string(&lines[i]) {
            None => {
                proof {
                    assert(ls.len() == lines@.len());
                    assert(json_str(ls[i as int]) is None);
                    assert(!all_lines_decode(ls));
                }
                return Err(ParseError::MalformedLine);
            },
            Some(s) => {
                let cs = chars_vec(s.as_str());
                let ids = vocab.tokenize_chars(&cs);
                proof {
                    assert(ids.deep_view() =~= ids@);
                }
                queries.push(ids);
                proof {
                    assert(queries.deep_view() =~= prev.push(line_ids(vocab@, ls[i as int])));
                    assert(prev.push(line_ids(vocab@, ls[i as int])) =~= Seq::new(
                        i as nat + 1,
                        |j: int| line_ids(vocab@, ls[j]),
                    ));
                }
            },
        }
        i = i + 1;
    }
    proof {
        assert(all_lines_decode(ls));
        assert(queries.deep_view() =~= Seq::new(ls.len(), |j: int| line_ids(vocab@, ls[j])));
    }
    Ok(QueryDataset { queries })
}

/// Tokenizes one part: decompresses `.gz` transport, then tokenizes the
/// text line by line.
pub fn tokenize_part(part: &Part, vocab: &Vocabulary) -> (r: Result<QueryDataset, ParseError>)
    ensures
        part_result_matches(vocab@, part@, r),
{
    if has_gz_suffix(&part.name) {
        match gunzip_bytes(&part.content) {
            None => Err(ParseError::InvalidGzip),
            Some(text) => tokenize_text(&text, vocab),
        }
    } else {
        tokenize_text(&part.content, vocab)
    }
}

// ---------------------------------------------------------------------------
// The merged dataset of a listing of parts
// ---------------------------------------------------------------------------
/// The merged dataset of parts already in final order: their datasets
/// concatenated; on failure, the error of the first failing part.
pub open spec fn collect_parts(words: Seq<Seq<char>>, pvs: Seq<PartView>) -> Result<
    Seq<Seq<usize>>,
    ParseError,
>
    decreases pvs.len(),
{
    if pvs.len() == 0 {
        Ok(Seq::empty())
    } else {
        match part_result(words, pvs.first()) {
            Err(e) => Err(e),
            Ok(d) => match collect_parts(words, pvs.drop_first()) {
                Err(e) => Err(e),
                Ok(rest) => Ok(d + rest),
            },
        }
    }
}

/// The dataset of a listing of parts: the parts sorted into ascending name
/// order, their datasets concatenated in that order.
pub open spec fn dataset_of(words: Seq<Seq<char>>, pvs: Seq<PartView>) -> Result<
    Seq<Seq<usize>>,
    ParseError,
> {
    collect_parts(words, pvs.sort_by(part_le_fn()))
}

/// Whether `r` is the outcome `dataset_of` describes for this listing.
pub open spec fn dataset_result_matches(
    words: Seq<Seq<char>>,
    pvs: Seq<PartView>,
    r: Result<QueryDataset, ParseError>,
) -> bool {
    result_matches(dataset_of(words, pvs), r)
}

/// Relies on rayon's indexed parallel map
/// (`par_iter().map(..).collect_into_vec(..)`): the results are collected
/// in the input's order, element `i` being the closure's result on part
/// `i`; the closure only calls the verified `tokenize_part`.
#[verifier::external_body]
fn tokenize_parts_parallel(parts: &Vec<Part>, vocab: &Vocabulary) -> (r: Vec<
    Result<QueryDataset, ParseError>,
>)
    ensures
        r@.len() == parts@.len(),
        forall|i: int|
            0 <= i < parts@.len() ==> part_result_matches(vocab@, parts@[i]@, #[trigger] r@[i]),
{
    let mut r = Vec::new();
    parts.par_iter().map(|p| tokenize_part(p, vocab)).collect_into_vec(&mut r);
    r
}

/// Builds the merged Query Dataset of a listing of parts (one file, or a
/// directory's entries): the parts are sorted by ascending path, each part
/// is tokenized independently — in parallel, the final order never
/// depending on completion order — and the per-part datasets are
/// concatenated in sorted order.
pub fn build_query_dataset(parts: Vec<Part>, vocab: &Vocabulary) -> (r: Result<
    QueryDataset,
    ParseError,
>)
    ensures
        dataset_result_matches(vocab@, parts_view(parts@), r),
{
    let ghost pvs = parts_view(parts@);
    let sorted = sort_parts(parts);
    let ghost spvs = parts_view(sorted@);
    let mut results = tokenize_parts_parallel(&sorted, vocab);
    let n = results.len();
    let ghost all = results@;
    let mut merged: Vec<Vec<usize>> = Vec::new();
    let mut i: usize = 0;
    proof {
        assert(spvs.len() == sorted@.len());
        assert(spvs.subrange(0, n as int) =~= spvs);
        assert(all.subrange(0, n as int) =~= all);
        assert(merged.deep_view() =~= Seq::<Seq<usize>>::empty());
        assert(merged.deep_view() + Seq::<Seq<usize>>::empty() =~= merged.deep_view());
    }
    while i < n
        invariant
            i <= n,
            n == results@.len() + i,
            n == all.len(),
            n == spvs.len(),
            results@ == all.subrange(i as int, n as int),
            pvs == parts_view(parts@),
            spvs == pvs.sort_by(part_le_fn()),
            forall|j: int| 0 <= j < n ==> part_result_matches(vocab@, spvs[j], #[trigger] all[j]),
            (match collect_parts(vocab@, spvs.subrange(i as int, n as int)) {
                Ok(rest) => collect_parts(vocab@, spvs) == Ok::<Seq<Seq<usize>>, ParseError>(
                    merged.deep_view() + rest,
                ),
                Err(e) => collect_parts(vocab@, spvs) == Err::<Seq<Seq<usize>>, ParseError>(e),
            }),
        decreases n - i,
    {
        let ghost sub = spvs.subrange(i as int, n as int);
        proof {
            assert(sub.first() == spvs[i as int]);
            assert(sub.drop_first() =~= spvs.subrange(i as int + 1, n as int));
            assert(all.subrange(i as int, n as int)[0] == all[i as int]);
        }
        let res = results.remove(0);
        proof {
            assert(res == all[i as int]);
            assert(results@ =~= all.subrange(i as int + 1, n as int));
            assert(part_result_matches(vocab@, spvs[i as int], res));
        }
        match res {
            Err(e) => {
                return Err(e);
            },
            Ok(mut ds) => {
                let ghost dsv = ds@;
                let ghost prev = merged.deep_view();
                merged.append(&mut ds.queries);
                proof {
                    assert(merged.deep_view() =~= prev + dsv);
                    let tail = collect_parts(vocab@, spvs.subrange(i as int + 1, n as int));
                    match tail {
                        Ok(rest) => {
                            assert(collect_parts(vocab@, sub) == Ok::<Seq<Seq<usize>>, ParseError>(
                                dsv + rest,
                            ));
                            assert((prev + dsv) + rest =~= prev + (dsv + rest));
                        },
                        Err(e) => {
                            assert(collect_parts(vocab@, sub) == Err::<Seq<Seq<usize>>, ParseError>(
                                e,
                            ));
                        },
                    }
                }
            },
        }
        i = i + 1;
    }
    proof {
        assert(spvs.subrange(n as int, n as int) =~= Seq::<PartView>::empty());
        assert(collect_parts(vocab@, spvs.subrange(n as int, n as int)) == Ok::<
            Seq<Seq<usize>>,
            ParseError,
        >(Seq::empty()));
        assert(merged.deep_view() + Seq::<Seq<usize>>::empty() =~= merged.deep_view());
    }
    Ok(QueryDataset { queries: merged })
}

// ---------------------------------------------------------------------------
// Laws of the collector
// ---------------------------------------------------------------------------
/// The merged dataset does not depend on the order in which the parts were
/// listed: two listings holding the same parts produce the same dataset,
/// whatever order a filesystem (or parallel completion) hands them out in.
pub proof fn lemma_dataset_ignores_listing_order(
    words: Seq<Seq<char>>,
    pvs1: Seq<PartView>,
    pvs2: Seq<PartView>,
)
    requires
        pvs1.to_multiset() == pvs2.to_multiset(),
    ensures
        dataset_of(words, pvs1) == dataset_of(words, pvs2),
{
    lemma_part_le_total_ordering();
    pvs1.lemma_sort_by_ensures(part_le_fn());
    pvs2.lemma_sort_by_ensures(part_le_fn());
    lemma_sorted_unique(pvs1.sort_by(part_le_fn()), pvs2.sort_by(part_le_fn()), part_le_fn());
}

/// Compression is a transport detail: a `.gz` part and a plain part whose
/// text is the same produce the same token sequences.
pub proof fn lemma_gzip_is_transport_only(words: Seq<Seq<char>>, gz: PartView, plain: PartView)
    requires
        is_gz_name(gz.0),
        !is_gz_name(plain.0),
        gunzip(gz.1) == Some(plain.1),
    ensures
        part_result(words, gz) == part_result(words, plain),
{
}

/// An empty listing is valid: it yields the empty dataset, not an error.
pub proof fn lemma_empty_listing_ok(words: Seq<Seq<char>>)
    ensures
        dataset_of(words, Seq::<PartView>::empty()) == Ok::<Seq<Seq<usize>>, ParseError>(
            Seq::empty(),
        ),
{
    let leq = part_le_fn();
    lemma_part_le_total_ordering();
    Seq::<PartView>::empty().lemma_sort_by_ensures(leq);
    to_multiset_len(Seq::<PartView>::empty());
    to_multiset_len(Seq::<PartView>::empty().sort_by(leq));
}

} // verus!
