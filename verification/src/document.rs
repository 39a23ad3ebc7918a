//! The document: a flat key-to-pair mapping built by folding the lines
//! of one input text.
//!
//! Each line is split at its first `=`; both sides are trimmed. A line
//! without a separator, or with an empty key, yields no pair. A separator
//! with an empty right-hand side yields a pair whose `present` flag is
//! false: the key exists but carries no value, distinct from the key
//! being absent entirely. When the same key appears on multiple lines,
//! the configured duplicate policy decides which occurrence wins; the
//! canonical choice is that the last occurrence wins.

use vstd::prelude::*;
use vstd::string::StrSliceExecFns;
use vstd::string::StringExecFns;

use crate::text::{
    find_char, find_char_spec, is_space_char, lemma_find_char_spec, split_char_spec, split_str,
    str_eq, trim_end_spec, trim_spec, trim_start_spec, trim_str,
};
use crate::value::IniError;
use crate::{FromIni, ToIni};

verus! {

/// One parsed line: a key, its raw value, and whether a value was
/// actually present after the separator.
pub struct RawPair {
    /// The key: non-empty and trimmed.
    pub key: String,
    /// The trimmed raw value; empty when `present` is false.
    pub value: String,
    /// Whether the separator was followed by a non-empty value.
    pub present: bool,
}

/// The mathematical model of a [`RawPair`].
pub struct PairModel {
    /// Model of the key.
    pub key: Seq<char>,
    /// Model of the raw value.
    pub value: Seq<char>,
    /// Model of the presence flag.
    pub present: bool,
}

impl View for RawPair {
    type V = PairModel;

    open spec fn view(&self) -> PairModel {
        PairModel { key: self.key@, value: self.value@, present: self.present }
    }
}

impl DeepView for RawPair {
    type V = PairModel;

    open spec fn deep_view(&self) -> PairModel {
        self.view()
    }
}

/// What happens when one key appears on several lines.
#[derive(Clone, Copy, Debug, PartialEq, Eq, Structural)]
pub enum DuplicateKeys {
    /// The last occurrence overwrites the earlier ones (canonical).
    LastWins,
    /// The first occurrence is kept and later ones are ignored.
    FirstWins,
}

/// What happens to a line whose value trims to nothing.
#[derive(Clone, Copy, Debug, PartialEq, Eq, Structural)]
pub enum EmptyValues {
    /// The key is kept, marked as present with no value (canonical).
    Keep,
    /// The whole line is discarded, as if the key were absent.
    Drop,
}

/// The configuration of the document parser.
#[derive(Clone, Copy, Debug, PartialEq, Eq, Structural)]
pub struct ParseOptions {
    /// The duplicate-key policy.
    pub duplicate_keys: DuplicateKeys,
    /// The empty-value policy.
    pub empty_values: EmptyValues,
}

/// The canonical parser configuration: last occurrence wins, empty
/// values kept as present-with-no-value.
pub open spec fn canonical_options() -> ParseOptions {
    ParseOptions { duplicate_keys: DuplicateKeys::LastWins, empty_values: EmptyValues::Keep }
}

impl Default for ParseOptions {
    /// The canonical configuration.
    fn default() -> (r: ParseOptions)
        ensures
            r == canonical_options(),
    {
        ParseOptions { duplicate_keys: DuplicateKeys::LastWins, empty_values: EmptyValues::Keep }
    }
}

/// The pair a single line yields, if any: the line is split at its first
/// `=`, both sides are trimmed, and an empty key or a missing separator
/// yields nothing.
pub open spec fn line_pair_spec(line: Seq<char>, ev: EmptyValues) -> Option<PairModel> {
    let e = find_char_spec(line, '=');
    if e < 0 {
        None
    } else {
        let k = trim_spec(line.subrange(0, e));
        if k.len() == 0 {
            None
        } else {
            let v = trim_spec(line.subrange(e + 1, line.len() as int));
            if v.len() == 0 && ev == EmptyValues::Drop {
                None
            } else {
                Some(PairModel { key: k, value: v, present: v.len() > 0 })
            }
        }
    }
}

/// The index of the first pair bearing `k`, or `-1` when no pair does.
pub open spec fn index_of_key(pairs: Seq<PairModel>, k: Seq<char>) -> int
    decreases pairs.len(),
{
    if pairs.len() == 0 {
        -1
    } else if pairs[0].key == k {
        0
    } else {
        let r = index_of_key(pairs.drop_first(), k);
        if r < 0 {
            -1
        } else {
            r + 1
        }
    }
}

/// What [`index_of_key`] returns: either `-1` and no pair bears `k`, or
/// the first index bearing `k`.
pub proof fn lemma_index_of_key(pairs: Seq<PairModel>, k: Seq<char>)
    ensures
        index_of_key(pairs, k) == -1 ==> forall|j: int|
            0 <= j < pairs.len() ==> pairs[j].key != k,
        index_of_key(pairs, k) != -1 ==> {
            let i = index_of_key(pairs, k);
            &&& 0 <= i < pairs.len()
            &&& pairs[i].key == k
            &&& forall|j: int| 0 <= j < i ==> pairs[j].key != k
        },
    decreases pairs.len(),
{
    if pairs.len() > 0 && pairs[0].key != k {
        let t = pairs.drop_first();
        lemma_index_of_key(t, k);
        let r = index_of_key(t, k);
        if r == -1 {
            assert forall|j: int| 0 <= j < pairs.len() implies pairs[j].key != k by {
                if j > 0 {
                    assert(t[j - 1] == pairs[j]);
                }
            }
        } else {
            assert(pairs[r + 1] == t[r]);
            assert forall|j: int| 0 <= j < r + 1 implies pairs[j].key != k by {
                if j > 0 {
                    assert(t[j - 1] == pairs[j]);
                }
            }
        }
    }
}

/// The pair bearing `k`, if any.
pub open spec fn lookup_spec(pairs: Seq<PairModel>, k: Seq<char>) -> Option<PairModel> {
    let i = index_of_key(pairs, k);
    if i < 0 {
        None
    } else {
        Some(pairs[i])
    }
}

/// `pairs` without the pair bearing `k`, when there is one.
pub open spec fn remove_key_spec(pairs: Seq<PairModel>, k: Seq<char>) -> Seq<PairModel> {
    let i = index_of_key(pairs, k);
    if i < 0 {
        pairs
    } else {
        pairs.remove(i)
    }
}

/// Adds the pair `p` to the document: a fresh key is appended; an
/// existing key is overwritten or kept, by the duplicate policy.
pub open spec fn upsert_spec(pairs: Seq<PairModel>, p: PairModel, dk: DuplicateKeys) -> Seq<
    PairModel,
> {
    let i = index_of_key(pairs, p.key);
    if i < 0 {
        pairs.push(p)
    } else if dk == DuplicateKeys::LastWins {
        pairs.update(i, p)
    } else {
        pairs
    }
}

/// The document that a sequence of lines folds into, first line first.
pub open spec fn doc_lines_spec(lines: Seq<Seq<char>>, opts: ParseOptions) -> Seq<PairModel>
    decreases lines.len(),
{
    if lines.len() == 0 {
        Seq::empty()
    } else {
        let d = doc_lines_spec(lines.drop_last(), opts);
        match line_pair_spec(lines.last(), opts.empty_values) {
            None => d,
            Some(p) => upsert_spec(d, p, opts.duplicate_keys),
        }
    }
}

/// The document of a whole text: its lines, folded in order.
pub open spec fn doc_spec(text: Seq<char>, opts: ParseOptions) -> Seq<PairModel> {
    doc_lines_spec(split_char_spec(text, '\n'), opts)
}

/// The line a pair renders to: `key = value`, or `key =` for a pair
/// without a value.
pub open spec fn render_pair_spec(p: PairModel) -> Seq<char> {
    if p.present {
        p.key + " = "@ + p.value
    } else {
        p.key + " ="@
    }
}

/// The text a document renders to: one line per pair, in document order,
/// joined by single line separators.
pub open spec fn doc_render_spec(pairs: Seq<PairModel>) -> Seq<char>
    decreases pairs.len(),
{
    if pairs.len() == 0 {
        Seq::empty()
    } else if pairs.len() == 1 {
        render_pair_spec(pairs[0])
    } else {
        doc_render_spec(pairs.drop_last()) + seq!['\n'] + render_pair_spec(pairs.last())
    }
}

/// Upserting a pair makes it the one that lookup by its key finds, under
/// the last-wins policy.
pub proof fn lemma_lookup_upsert_same(pairs: Seq<PairModel>, p: PairModel)
    ensures
        lookup_spec(upsert_spec(pairs, p, DuplicateKeys::LastWins), p.key) == Some(p),
{
    lemma_index_of_key(pairs, p.key);
    let i = index_of_key(pairs, p.key);
    if i < 0 {
        let q = pairs.push(p);
        lemma_index_of_key(q, p.key);
        assert(q[pairs.len() as int] == p);
        assert(index_of_key(q, p.key) != -1);
        let i2 = index_of_key(q, p.key);
        if i2 < pairs.len() {
            assert(q[i2] == pairs[i2]);
        }
    } else {
        let q = pairs.update(i, p);
        lemma_index_of_key(q, p.key);
        assert(q[i] == p);
        assert(index_of_key(q, p.key) != -1);
        let i2 = index_of_key(q, p.key);
        if i2 < i {
            assert(q[i2] == pairs[i2]);
        }
    }
}

/// Upserting a pair leaves lookup of every other key unchanged.
pub proof fn lemma_lookup_upsert_other(
    pairs: Seq<PairModel>,
    p: PairModel,
    dk: DuplicateKeys,
    k: Seq<char>,
)
    requires
        k != p.key,
    ensures
        lookup_spec(upsert_spec(pairs, p, dk), k) == lookup_spec(pairs, k),
{
    lemma_index_of_key(pairs, p.key);
    lemma_index_of_key(pairs, k);
    let q = upsert_spec(pairs, p, dk);
    lemma_index_of_key(q, k);
    let i0 = index_of_key(pairs, p.key);
    let i1 = index_of_key(pairs, k);
    let i2 = index_of_key(q, k);
    if i0 < 0 || dk == DuplicateKeys::LastWins {
        // q is pairs.push(p) or pairs.update(i0, p); in either case the
        // positions bearing k are unchanged.
        if i1 == -1 {
            assert forall|j: int| 0 <= j < q.len() implies q[j].key != k by {
                if j < pairs.len() && j != i0 {
                    assert(q[j] == pairs[j]);
                }
            }
            assert(i2 == -1);
        } else {
            assert(q[i1] == pairs[i1]);
            assert(i2 != -1) by {
                lemma_index_of_key(q, k);
            }
            if i2 < i1 {
                if i2 != i0 {
                    assert(q[i2] == pairs[i2]);
                } else {
                    assert(q[i2].key == p.key);
                }
            }
            if i1 < i2 {
                assert(q[i1].key == k);
            }
            assert(i2 == i1);
            assert(q[i1] == pairs[i1]);
        }
    }
}

/// A well-formed pair, as parsing produces them: the key is non-empty,
/// trimmed, and free of separators and line breaks; the value is trimmed
/// and free of line breaks; the presence flag agrees with the value.
pub open spec fn wf_pair(p: PairModel) -> bool {
    &&& p.key.len() > 0
    &&& !is_space_char(p.key[0])
    &&& !is_space_char(p.key.last())
    &&& forall|k: int| 0 <= k < p.key.len() ==> #[trigger] p.key[k] != '=' && p.key[k] != '\n'
    &&& (p.present <==> p.value.len() > 0)
    &&& p.value.len() > 0 ==> !is_space_char(p.value[0]) && !is_space_char(p.value.last())
    &&& forall|k: int| 0 <= k < p.value.len() ==> #[trigger] p.value[k] != '\n'
}

/// The line a well-formed pair renders to parses back to exactly that
/// pair.
pub proof fn lemma_render_pair_round_trip(p: PairModel)
    requires
        wf_pair(p),
    ensures
        line_pair_spec(render_pair_spec(p), EmptyValues::Keep) == Some(p),
{
    reveal_strlit(" = ");
    reveal_strlit(" =");
    let line = render_pair_spec(p);
    let kl = p.key.len() as int;
    assert(line[kl] == ' ');
    assert(line[kl + 1] == '=');
    assert(find_char_spec(line, '=') == kl + 1) by {
        lemma_find_char_spec(line, '=');
        let j = find_char_spec(line, '=');
        if j == -1 {
            assert(line[kl + 1] == '=');
        } else {
            if j < kl {
                assert(line[j] == p.key[j]);
            }
            if j == kl {
                assert(line[j] == ' ');
            }
            if j > kl + 1 {
                assert(line[kl + 1] != '=');
            }
        }
    }
    let left = line.subrange(0, kl + 1);
    assert(left =~= p.key + seq![' ']);
    assert(trim_spec(left) == p.key) by {
        assert(!is_space_char(left[0]));
        assert(trim_start_spec(left) == left);
        assert(is_space_char(left.last()));
        assert(left.drop_last() =~= p.key);
        assert(trim_end_spec(left) == trim_end_spec(p.key));
        assert(trim_end_spec(p.key) == p.key);
    }
    if p.present {
        let right = line.subrange(kl + 2, line.len() as int);
        assert(right =~= seq![' '] + p.value);
        assert(trim_spec(right) == p.value) by {
            assert(is_space_char(right[0]));
            assert(right.drop_first() =~= p.value);
            assert(trim_start_spec(right) == trim_start_spec(p.value));
            assert(trim_start_spec(p.value) == p.value);
            assert(trim_end_spec(p.value) == p.value);
        }
    } else {
        let right = line.subrange(kl + 2, line.len() as int);
        assert(right =~= Seq::<char>::empty());
        assert(trim_spec(right).len() == 0);
        assert(trim_spec(right) =~= p.value);
    }
}

/// The rendered line of a well-formed pair contains no line break.
proof fn lemma_render_pair_no_newline(p: PairModel)
    requires
        wf_pair(p),
    ensures
        forall|k: int| 0 <= k < render_pair_spec(p).len() ==> #[trigger] render_pair_spec(p)[k]
            != '\n',
{
    reveal_strlit(" = ");
    reveal_strlit(" =");
    let line = render_pair_spec(p);
    let kl = p.key.len() as int;
    assert forall|k: int| 0 <= k < line.len() implies #[trigger] line[k] != '\n' by {
        if k < kl {
            assert(line[k] == p.key[k]);
        } else if k == kl {
            assert(line[k] == ' ');
        } else if k == kl + 1 {
            assert(line[k] == '=');
        } else if k == kl + 2 {
            assert(p.present && line[k] == ' ');
        } else {
            assert(p.present && line[k] == p.value[k - kl - 3]);
        }
    }
}

/// The rendered lines of a document, in document order.
pub open spec fn rendered_lines(pairs: Seq<PairModel>) -> Seq<Seq<char>> {
    pairs.map_values(|p: PairModel| render_pair_spec(p))
}

/// For two or more pairs, the rendered text can also be read as its
/// first line, a separator, and the rendering of the remaining pairs.
proof fn lemma_render_front(pairs: Seq<PairModel>)
    requires
        pairs.len() >= 2,
    ensures
        doc_render_spec(pairs) == render_pair_spec(pairs[0]) + seq!['\n'] + doc_render_spec(
            pairs.drop_first(),
        ),
    decreases pairs.len(),
{
    if pairs.len() == 2 {
        assert(pairs.drop_last() =~= seq![pairs[0]]);
        assert(pairs.drop_first() =~= seq![pairs[1]]);
        assert(seq![pairs[0]].drop_last() =~= Seq::<PairModel>::empty());
        assert(doc_render_spec(seq![pairs[0]]) == render_pair_spec(pairs[0]));
        assert(doc_render_spec(seq![pairs[1]]) == render_pair_spec(pairs[1]));
        assert(doc_render_spec(pairs) =~= render_pair_spec(pairs[0]) + seq!['\n']
            + doc_render_spec(pairs.drop_first()));
    } else {
        let front = pairs.drop_last();
        lemma_render_front(front);
        let rest = pairs.drop_first();
        assert(front[0] == pairs[0]);
        assert(front.drop_first() =~= rest.drop_last());
        assert(rest.len() >= 2);
        assert(rest.last() == pairs.last());
        assert(doc_render_spec(rest) == doc_render_spec(rest.drop_last()) + seq!['\n']
            + render_pair_spec(rest.last()));
        assert(doc_render_spec(pairs) =~= render_pair_spec(pairs[0]) + seq!['\n']
            + doc_render_spec(rest));
    }
}

/// Splitting the rendered text at line breaks recovers the rendered
/// lines, one per pair.
proof fn lemma_split_render(pairs: Seq<PairModel>)
    requires
        pairs.len() >= 1,
        forall|j: int| 0 <= j < pairs.len() ==> wf_pair(#[trigger] pairs[j]),
    ensures
        split_char_spec(doc_render_spec(pairs), '\n') == rendered_lines(pairs),
    decreases pairs.len(),
{
    let s = doc_render_spec(pairs);
    lemma_render_pair_no_newline(pairs[0]);
    let line0 = render_pair_spec(pairs[0]);
    if pairs.len() == 1 {
        assert(find_char_spec(s, '\n') == -1) by {
            lemma_find_char_spec(s, '\n');
            if find_char_spec(s, '\n') != -1 {
                assert(s[find_char_spec(s, '\n')] != '\n');
            }
        }
        assert(split_char_spec(s, '\n') =~= rendered_lines(pairs));
    } else {
        lemma_render_front(pairs);
        let rest = pairs.drop_first();
        let rs = doc_render_spec(rest);
        assert(s == line0 + seq!['\n'] + rs);
        let ll = line0.len() as int;
        assert(s[ll] == '\n');
        assert(find_char_spec(s, '\n') == ll) by {
            lemma_find_char_spec(s, '\n');
            let j = find_char_spec(s, '\n');
            if j == -1 {
                assert(s[ll] == '\n');
            } else {
                if j < ll {
                    assert(s[j] == line0[j]);
                }
                if j > ll {
                    assert(s[ll] != '\n');
                }
            }
        }
        assert(s.subrange(0, ll) =~= line0);
        assert(s.subrange(ll + 1, s.len() as int) =~= rs);
        assert forall|j: int| 0 <= j < rest.len() implies wf_pair(#[trigger] rest[j]) by {
            assert(rest[j] == pairs[j + 1]);
        }
        lemma_split_render(rest);
        assert(split_char_spec(s, '\n') =~= seq![line0] + split_char_spec(rs, '\n'));
        assert(seq![line0] + rendered_lines(rest) =~= rendered_lines(pairs));
    }
}

/// A well-formed document: every pair well-formed, and no key repeated.
/// Parsing produces only well-formed documents.
pub open spec fn wf_doc(pairs: Seq<PairModel>) -> bool {
    &&& forall|j: int| 0 <= j < pairs.len() ==> wf_pair(#[trigger] pairs[j])
    &&& forall|j1: int, j2: int|
        0 <= j1 < j2 < pairs.len() ==> (#[trigger] pairs[j1]).key != (#[trigger] pairs[j2]).key
}

/// Folding the rendered lines of a well-formed document rebuilds it
/// exactly.
proof fn lemma_fold_rendered(pairs: Seq<PairModel>)
    requires
        wf_doc(pairs),
    ensures
        doc_lines_spec(rendered_lines(pairs), canonical_options()) == pairs,
    decreases pairs.len(),
{
    if pairs.len() > 0 {
        let front = pairs.drop_last();
        assert forall|j: int| 0 <= j < front.len() implies wf_pair(#[trigger] front[j]) by {
            assert(front[j] == pairs[j]);
        }
        assert forall|j1: int, j2: int| 0 <= j1 < j2 < front.len() implies (
        #[trigger] front[j1]).key != (#[trigger] front[j2]).key by {
            assert(front[j1] == pairs[j1] && front[j2] == pairs[j2]);
        }
        lemma_fold_rendered(front);
        let lines = rendered_lines(pairs);
        assert(lines.drop_last() =~= rendered_lines(front));
        assert(lines.last() == render_pair_spec(pairs.last()));
        lemma_render_pair_round_trip(pairs.last());
        lemma_index_of_key(front, pairs.last().key);
        let i = index_of_key(front, pairs.last().key);
        if i >= 0 {
            assert(pairs[i].key == pairs[pairs.len() - 1].key);
        }
        assert(upsert_spec(front, pairs.last(), DuplicateKeys::LastWins) =~= pairs);
    }
}

/// LAW (document round trip): rendering a well-formed document and
/// parsing the result under the canonical configuration yields back
/// exactly the same document, pair for pair and in the same order.
pub proof fn lemma_document_round_trip(pairs: Seq<PairModel>)
    requires
        wf_doc(pairs),
    ensures
        doc_spec(doc_render_spec(pairs), canonical_options()) == pairs,
{
    if pairs.len() == 0 {
        let s = doc_render_spec(pairs);
        assert(s.len() == 0);
        assert(find_char_spec(s, '\n') == -1);
        assert(split_char_spec(s, '\n') =~= seq![s]);
        assert(find_char_spec(s, '=') == -1);
        assert(line_pair_spec(s, EmptyValues::Keep) is None);
        assert(seq![s].drop_last() =~= Seq::<Seq<char>>::empty());
        assert(doc_lines_spec(Seq::<Seq<char>>::empty(), canonical_options()) =~= Seq::<
            PairModel,
        >::empty());
        assert(doc_lines_spec(seq![s], canonical_options()) =~= pairs);
    } else {
        lemma_split_render(pairs);
        lemma_fold_rendered(pairs);
    }
}

/// The pair of a line without line breaks is well-formed.
proof fn lemma_line_pair_wf(line: Seq<char>, ev: EmptyValues)
    requires
        forall|k: int| 0 <= k < line.len() ==> #[trigger] line[k] != '\n',
    ensures
        match line_pair_spec(line, ev) {
            Some(p) => wf_pair(p),
            None => true,
        },
{
    lemma_find_char_spec(line, '=');
    let e = find_char_spec(line, '=');
    match line_pair_spec(line, ev) {
        None => {},
        Some(p) => {
            let x = line.subrange(0, e);
            let k = trim_spec(x);
            crate::text::lemma_trim_start_props(x);
            crate::text::lemma_trim_end_props(trim_start_spec(x));
            crate::text::lemma_trim_infix(x);
            assert forall|j: int|
                0 <= j < k.len() implies #[trigger] k[j] != '=' && k[j] != '\n' by {
                let d = x.len() - trim_start_spec(x).len();
                assert(k[j] == x[j + d]);
                assert(x[j + d] == line[j + d]);
            }
            let y = line.subrange(e + 1, line.len() as int);
            let v = trim_spec(y);
            crate::text::lemma_trim_start_props(y);
            crate::text::lemma_trim_end_props(trim_start_spec(y));
            crate::text::lemma_trim_infix(y);
            assert forall|j: int| 0 <= j < v.len() implies #[trigger] v[j] != '\n' by {
                let d = y.len() - trim_start_spec(y).len();
                assert(v[j] == y[j + d]);
                assert(y[j + d] == line[e + 1 + j + d]);
            }
        },
    }
}

/// Folding lines without line breaks yields a well-formed document.
proof fn lemma_doc_lines_wf(lines: Seq<Seq<char>>, opts: ParseOptions)
    requires
        forall|i: int, k: int|
            0 <= i < lines.len() && 0 <= k < lines[i].len() ==> #[trigger] lines[i][k] != '\n',
    ensures
        wf_doc(doc_lines_spec(lines, opts)),
    decreases lines.len(),
{
    if lines.len() > 0 {
        assert forall|i: int, k: int|
            0 <= i < lines.drop_last().len() && 0 <= k
                < lines.drop_last()[i].len() implies #[trigger] lines.drop_last()[i][k]
            != '\n' by {
            assert(lines.drop_last()[i] == lines[i]);
        }
        lemma_doc_lines_wf(lines.drop_last(), opts);
        let d = doc_lines_spec(lines.drop_last(), opts);
        let q = doc_lines_spec(lines, opts);
        assert forall|k: int| 0 <= k < lines.last().len() implies #[trigger] lines.last()[k]
            != '\n' by {
            assert(lines.last() == lines[lines.len() - 1]);
        }
        lemma_line_pair_wf(lines.last(), opts.empty_values);
        match line_pair_spec(lines.last(), opts.empty_values) {
            None => {},
            Some(p) => {
                lemma_index_of_key(d, p.key);
                let i = index_of_key(d, p.key);
                if i < 0 {
                    assert forall|j: int| 0 <= j < q.len() implies wf_pair(#[trigger] q[j]) by {
                        if j < d.len() {
                            assert(q[j] == d[j]);
                        } else {
                            assert(q[j] == p);
                        }
                    }
                    assert forall|j1: int, j2: int| 0 <= j1 < j2 < q.len() implies (
                    #[trigger] q[j1]).key != (#[trigger] q[j2]).key by {
                        if j2 < d.len() {
                            assert(q[j1] == d[j1] && q[j2] == d[j2]);
                        } else {
                            assert(q[j1] == d[j1] && q[j2] == p);
                        }
                    }
                } else if opts.duplicate_keys == DuplicateKeys::LastWins {
                    assert(d[i].key == p.key);
                    assert forall|j: int| 0 <= j < q.len() implies wf_pair(#[trigger] q[j]) by {
                        if j != i {
                            assert(q[j] == d[j]);
                        } else {
                            assert(q[j] == p);
                        }
                    }
                    assert forall|j1: int, j2: int| 0 <= j1 < j2 < q.len() implies (
                    #[trigger] q[j1]).key != (#[trigger] q[j2]).key by {
                        assert(q[j1].key == d[j1].key);
                        assert(q[j2].key == d[j2].key);
                    }
                }
            },
        }
    }
}

/// A parsed document is well-formed: a true mapping with unique,
/// non-empty, trimmed keys, trimmed values, and presence flags that
/// agree with the values.
pub proof fn lemma_document_invariant(text: Seq<char>, opts: ParseOptions)
    ensures
        wf_doc(doc_spec(text, opts)),
{
    crate::text::lemma_split_no_sep(text, '\n');
    lemma_doc_lines_wf(split_char_spec(text, '\n'), opts);
}

/// LAW (parse after render): rendering any parsed document and parsing
/// the result under the canonical configuration yields the same
/// document back, pair for pair and in the same order.
pub proof fn lemma_parse_render_round_trip(text: Seq<char>)
    ensures
        doc_spec(
            doc_render_spec(doc_spec(text, canonical_options())),
            canonical_options(),
        ) == doc_spec(text, canonical_options()),
{
    lemma_document_invariant(text, canonical_options());
    lemma_document_round_trip(doc_spec(text, canonical_options()));
}

/// Under the last-wins policy, the pair of the last line bearing a key
/// is the one that lookup on the parsed document finds, whatever earlier
/// lines said of that key.
pub proof fn lemma_duplicate_key_last_wins(
    lines: Seq<Seq<char>>,
    opts: ParseOptions,
    j: int,
    p: PairModel,
)
    requires
        opts.duplicate_keys == DuplicateKeys::LastWins,
        0 <= j < lines.len(),
        line_pair_spec(lines[j], opts.empty_values) == Some(p),
        forall|m: int|
            j < m < lines.len() ==> match #[trigger] line_pair_spec(lines[m], opts.empty_values) {
                Some(q) => q.key != p.key,
                None => true,
            },
    ensures
        lookup_spec(doc_lines_spec(lines, opts), p.key) == Some(p),
    decreases lines.len(),
{
    let d = doc_lines_spec(lines.drop_last(), opts);
    if j == lines.len() - 1 {
        assert(lines.last() == lines[j]);
        lemma_lookup_upsert_same(d, p);
    } else {
        let t = lines.drop_last();
        assert(t[j] == lines[j]);
        assert forall|m: int|
            j < m < t.len() implies match #[trigger] line_pair_spec(t[m], opts.empty_values) {
            Some(q) => q.key != p.key,
            None => true,
        } by {
            assert(t[m] == lines[m]);
        }
        lemma_duplicate_key_last_wins(t, opts, j, p);
        match line_pair_spec(lines.last(), opts.empty_values) {
            None => {},
            Some(q) => {
                lemma_lookup_upsert_other(d, q, opts.duplicate_keys, p.key);
            },
        }
    }
}

/// A flat key-to-pair mapping parsed from one input text.
pub struct Document {
    pairs: Vec<RawPair>,
}

impl View for Document {
    type V = Seq<PairModel>;

    closed spec fn view(&self) -> Seq<PairModel> {
        self.pairs.deep_view()
    }
}

/// Parses one line into a pair, as [`line_pair_spec`] says.
fn line_to_pair(line: &str, ev: EmptyValues) -> (r: Option<RawPair>)
    ensures
        match r {
            Some(p) => line_pair_spec(line@, ev) == Some(p@),
            None => line_pair_spec(line@, ev) is None,
        },
{
    match find_char(line, '=') {
        None => None,
        Some(e) => {
            proof {
                lemma_find_char_spec(line@, '=');
            }
            let n = line.unicode_len();
            let k = trim_str(line.substring_char(0, e));
            if k.unicode_len() == 0 {
                return None;
            }
            let v = trim_str(line.substring_char(e + 1, n));
            let present = v.unicode_len() > 0;
            if !present && ev == EmptyValues::Drop {
                return None;
            }
            Some(RawPair { key: String::from_str(k), value: String::from_str(v), present })
        },
    }
}

/// Finds the first pair bearing `key`, as [`index_of_key`] says.
fn find_key(pairs: &Vec<RawPair>, key: &str) -> (r: Option<usize>)
    ensures
        match r {
            Some(i) => i == index_of_key(pairs.deep_view(), key@),
            None => index_of_key(pairs.deep_view(), key@) == -1,
        },
{
    let n = pairs.len();
    let mut i: usize = 0;
    while i < n
        invariant
            0 <= i <= n,
            n == pairs@.len(),
            forall|j: int| 0 <= j < i ==> pairs.deep_view()[j].key != key@,
        decreases n - i,
    {
        if str_eq(pairs[i].key.as_str(), key) {
            proof {
                assert(pairs.deep_view()[i as int] == pairs@[i as int]@);
                assert(pairs.deep_view()[i as int].key == key@);
                lemma_index_of_key(pairs.deep_view(), key@);
            }
            return Some(i);
        }
        i = i + 1;
    }
    proof {
        lemma_index_of_key(pairs.deep_view(), key@);
    }
    None
}

impl Document {
    /// Parses a text under the given configuration: its lines, folded in
    /// order, as [`doc_spec`] says.
    pub fn parse_with(text: &str, opts: ParseOptions) -> (d: Document)
        ensures
            d@ == doc_spec(text@, opts),
    {
        let lines = split_str(text, '\n');
        let mut pairs: Vec<RawPair> = Vec::new();
        let n = lines.len();
        let mut li: usize = 0;
        proof {
            assert(lines.deep_view().subrange(0, 0) =~= Seq::<Seq<char>>::empty());
        }
        while li < n
            invariant
                0 <= li <= n,
                n == lines@.len(),
                lines.deep_view() == split_char_spec(text@, '\n'),
                pairs.deep_view() == doc_lines_spec(lines.deep_view().subrange(0, li as int), opts),
            decreases n - li,
        {
            let ghost prefix = lines.deep_view().subrange(0, li as int);
            let ghost next_prefix = lines.deep_view().subrange(0, li + 1);
            proof {
                assert(next_prefix.drop_last() =~= prefix);
                assert(lines@[li as int]@ == lines.deep_view()[li as int]);
            }
            match line_to_pair(lines[li].as_str(), opts.empty_values) {
                None => {},
                Some(p) => {
                    match find_key(&pairs, p.key.as_str()) {
                        None => {
                            let ghost before = pairs.deep_view();
                            pairs.push(p);
                            proof {
                                assert(pairs.deep_view() =~= before.push(p@));
                            }
                        },
                        Some(i) => {
                            proof {
                                lemma_index_of_key(pairs.deep_view(), p@.key);
                            }
                            if opts.duplicate_keys == DuplicateKeys::LastWins {
                                let ghost before = pairs.deep_view();
                                pairs.remove(i);
                                pairs.insert(i, p);
                                proof {
                                    assert(pairs.deep_view() =~= before.update(i as int, p@));
                                }
                            }
                        },
                    }
                },
            }
            li = li + 1;
        }
        proof {
            assert(lines.deep_view().subrange(0, n as int) =~= lines.deep_view());
        }
        Document { pairs }
    }

    /// Parses a text under the canonical configuration: last occurrence
    /// wins, empty values kept as present-with-no-value.
    pub fn parse(text: &str) -> (d: Document)
        ensures
            d@ == doc_spec(text@, canonical_options()),
    {
        Document::parse_with(text, ParseOptions::default())
    }

    /// The number of pairs held.
    pub fn len(&self) -> (n: usize)
        ensures
            n == self@.len(),
    {
        self.pairs.len()
    }

    /// The pair at a position, in document order.
    pub fn pair_at(&self, i: usize) -> (r: &RawPair)
        requires
            i < self@.len(),
        ensures
            r@ == self@[i as int],
    {
        &self.pairs[i]
    }

    /// The pair bearing `key`, if any.
    pub fn get(&self, key: &str) -> (r: Option<&RawPair>)
        ensures
            match r {
                Some(p) => lookup_spec(self@, key@) == Some(p@),
                None => lookup_spec(self@, key@) is None,
            },
    {
        match find_key(&self.pairs, key) {
            Some(i) => {
                proof {
                    lemma_index_of_key(self.pairs.deep_view(), key@);
                    assert(self.pairs.deep_view()[i as int] == self.pairs@[i as int]@);
                }
                Some(&self.pairs[i])
            },
            None => None,
        }
    }

    /// Removes and returns the pair bearing `key`, if any.
    pub fn take(&mut self, key: &str) -> (r: Option<RawPair>)
        ensures
            final(self)@ == remove_key_spec(old(self)@, key@),
            match r {
                Some(p) => lookup_spec(old(self)@, key@) == Some(p@),
                None => lookup_spec(old(self)@, key@) is None,
            },
    {
        match find_key(&self.pairs, key) {
            Some(i) => {
                proof {
                    lemma_index_of_key(self.pairs.deep_view(), key@);
                }
                let ghost before = self.pairs.deep_view();
                let p = self.pairs.remove(i);
                proof {
                    assert(before[i as int] == p@);
                    assert(self.pairs.deep_view() =~= before.remove(i as int));
                }
                Some(p)
            },
            None => None,
        }
    }

    /// Renders the document back to text: one line per pair, in document
    /// order, as [`doc_render_spec`] says.
    pub fn render(&self) -> (r: String)
        ensures
            r@ == doc_render_spec(self@),
    {
        let mut out = String::new();
        let n = self.pairs.len();
        let mut i: usize = 0;
        proof {
            assert(self@.subrange(0, 0) =~= Seq::<PairModel>::empty());
        }
        while i < n
            invariant
                0 <= i <= n,
                n == self@.len(),
                out@ == doc_render_spec(self@.subrange(0, i as int)),
            decreases n - i,
        {
            if i > 0 {
                out.append("\n");
            }
            let p = &self.pairs[i];
            out.append(p.key.as_str());
            if p.present {
                out.append(" = ");
                out.append(p.value.as_str());
            } else {
                out.append(" =");
            }
            proof {
                reveal_strlit("\n");
                reveal_strlit(" = ");
                reveal_strlit(" =");
                assert(p@ == self@[i as int]);
                let next = self@.subrange(0, i + 1);
                assert(next.drop_last() =~= self@.subrange(0, i as int));
                assert(next.last() == self@[i as int]);
                assert(out@ =~= doc_render_spec(next));
            }
            i = i + 1;
        }
        proof {
            assert(self@.subrange(0, n as int) =~= self@);
        }
        out
    }
}

impl FromIni for Document {
    /// Parses under the canonical configuration; parsing a document
    /// never fails.
    fn from_ini(ini: &str) -> (r: Result<Document, IniError>) {
        Ok(Document::parse(ini))
    }
}

impl ToIni for Document {
    /// Renders the document, as [`Document::render`] does.
    fn to_ini(&self) -> String {
        self.render()
    }
}

} // verus!
