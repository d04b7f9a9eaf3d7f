use rustc_hash::FxBuildHasher;
use rustc_hash::FxHashMap;
use smallvec::SmallVec;
use vstd::prelude::*;

verus! {

/// `rustc_hash::FxBuildHasher`, the hasher of the label index; nothing is
/// claimed of it.
#[verifier::external_type_specification]
#[verifier::external_body]
pub struct ExFxBuildHasher(FxBuildHasher);

/// A growable list of edges between ids, kept inline while it is short: a
/// `smallvec::SmallVec`, reached only through the functions below.
#[verifier::external_body]
pub struct EdgeBuffer {
    items: SmallVec<[(usize, usize); 1024]>,
}

/// The label-to-id entries that a hash index holds.
pub uninterp spec fn index_entries(m: FxHashMap<String, usize>) -> Map<Seq<char>, usize>;

/// The edges that a buffer holds, in the order in which they were pushed.
pub uninterp spec fn edge_seq(b: EdgeBuffer) -> Seq<(usize, usize)>;

/// `FxHashMap::default`: a map without entries.
#[verifier::external_body]
pub(crate) fn index_new() -> (m: FxHashMap<String, usize>)
    ensures
        forall|k: Seq<char>| !(#[trigger] index_entries(m).contains_key(k)),
{
    FxHashMap::default()
}

/// `HashMap::get` on a string key: the value stored under the key's
/// characters, if there is one.
#[verifier::external_body]
pub(crate) fn index_get(m: &FxHashMap<String, usize>, key: &str) -> (found: Option<usize>)
    ensures
        found == (if index_entries(*m).contains_key(key@) {
            Some(index_entries(*m)[key@])
        } else {
            None
        }),
{
    m.get(key).copied()
}

/// `HashMap::insert`: the entries afterwards are those before, with the key's
/// characters mapped to the value.
#[verifier::external_body]
pub(crate) fn index_insert(m: &mut FxHashMap<String, usize>, key: String, value: usize)
    ensures
        index_entries(*final(m)) == index_entries(*old(m)).insert(key@, value),
{
    m.insert(key, value);
}

/// `SmallVec::new`: a buffer without items.
#[verifier::external_body]
pub(crate) fn edges_new() -> (b: EdgeBuffer)
    ensures
        edge_seq(b).len() == 0,
{
    EdgeBuffer { items: SmallVec::new() }
}

/// `SmallVec::push`: the item is appended behind those already held.
#[verifier::external_body]
pub(crate) fn edges_push(b: &mut EdgeBuffer, e: (usize, usize))
    ensures
        edge_seq(*final(b)) == edge_seq(*old(b)).push(e),
{
    b.items.push(e);
}

/// `SmallVec::as_slice`: the items held, in order, as a slice.
#[verifier::external_body]
pub(crate) fn edges_as_slice(b: &EdgeBuffer) -> (s: &[(usize, usize)])
    ensures
        s@ == edge_seq(*b),
{
    b.items.as_slice()
}

/// Whether `a` comes before `b` when the two are compared character by
/// character, a proper prefix before what extends it.
pub open spec fn lex_lt(a: Seq<char>, b: Seq<char>) -> bool
    decreases a.len(),
{
    if b.len() == 0 {
        false
    } else if a.len() == 0 {
        true
    } else if a[0] != b[0] {
        (a[0] as u32) < (b[0] as u32)
    } else {
        lex_lt(a.drop_first(), b.drop_first())
    }
}

/// `<` on `str`: std orders strings by their bytes, which for UTF-8 is the
/// order of their characters' code points, position by position.
#[verifier::external_body]
pub(crate) fn str_lt(a: &str, b: &str) -> (r: bool)
    ensures
        r == lex_lt(a@, b@),
{
    a < b
}

} // verus!
