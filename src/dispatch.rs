//! The dispatch router: takes the selector off the front of a call, looks up
//! the facet that serves it, forwards the whole call there, and hands back
//! what the facet returned.
use vstd::prelude::*;
use crate::region::{diamond_region, region_id};
use crate::table::{is_null, is_null_facet, lookup, DiamondStorage, RouteKey};

verus! {

/// Number of bytes of the selector that prefixes every call.
pub const SELECTOR_BYTES: usize = 4;

/// Why a call was rejected.
#[derive(Debug, PartialEq, Eq)]
pub enum DispatchError {
    /// The call is too short to hold a selector.
    MalformedInput,
    /// No facet is registered for the call's selector.
    UnknownSelector,
    /// The facet was invoked and failed; its failure payload, unchanged.
    FacetFailed(Vec<u8>),
}

/// The selector of a call: its first four bytes, if it has that many.
pub open spec fn selector_spec(input: Seq<u8>) -> Option<Seq<u8>> {
    if input.len() >= SELECTOR_BYTES {
        Some(input.subrange(0, SELECTOR_BYTES as int))
    } else {
        None
    }
}

/// The facet that a call is routed to under the table `t`, or why none is.
pub open spec fn route_spec(t: Map<RouteKey, [u8; 20]>, input: Seq<u8>) -> Result<
    [u8; 20],
    DispatchError,
> {
    match selector_spec(input) {
        None => Err(DispatchError::MalformedInput),
        Some(s) => match lookup(t, diamond_region(), s) {
            Some(f) => Ok(f),
            None => Err(DispatchError::UnknownSelector),
        },
    }
}

/// The result of a call whose facet answered with `out`.
pub open spec fn outcome_spec(out: Result<Vec<u8>, Vec<u8>>) -> Result<Vec<u8>, DispatchError> {
    match out {
        Ok(y) => Ok(y),
        Err(e) => Err(DispatchError::FacetFailed(e)),
    }
}

/// Takes the selector off the front of a call.
pub fn selector_of(input: &[u8]) -> (r: Option<[u8; 4]>)
    ensures
        match r {
            Some(s) => selector_spec(input@) == Some(s@),
            None => selector_spec(input@) is None,
        },
{
    if input.len() < SELECTOR_BYTES {
        return None;
    }
    let s: [u8; 4] = [input[0], input[1], input[2], input[3]];
    assert(s@ =~= input@.subrange(0, 4));
    Some(s)
}

/// Routes on the word that a storage slot of the table holds for a
/// selector: the null address there means that no facet is registered.
pub fn facet_from_word(word: [u8; 20]) -> (r: Result<[u8; 20], DispatchError>)
    ensures
        is_null(word@) ==> r == Err::<[u8; 20], DispatchError>(DispatchError::UnknownSelector),
        !is_null(word@) ==> r == Ok::<[u8; 20], DispatchError>(word),
{
    if is_null_facet(&word) {
        Err(DispatchError::UnknownSelector)
    } else {
        Ok(word)
    }
}

/// Turns what the facet answered into the result of the call: success bytes
/// unchanged, or its failure payload unchanged under `FacetFailed`.
pub fn propagate(out: Result<Vec<u8>, Vec<u8>>) -> (r: Result<Vec<u8>, DispatchError>)
    ensures
        r == outcome_spec(out),
{
    match out {
        Ok(y) => Ok(y),
        Err(e) => Err(DispatchError::FacetFailed(e)),
    }
}

/// Serves one call against a routing table kept in outside storage:
/// `read_word` gives the word stored for a selector under this router's
/// region (the null address where none is registered), and `invoke` runs a
/// facet on the whole call. Storage is read only for a call that holds a
/// selector, and a facet is invoked only for a call that routes to it.
pub fn dispatch_stored<R, F>(input: Vec<u8>, read_word: R, invoke: F) -> (r: Result<
    Vec<u8>,
    DispatchError,
>) where
    R: FnOnce([u8; 4]) -> [u8; 20],
    F: FnOnce([u8; 20], Vec<u8>) -> Result<Vec<u8>, Vec<u8>>,

    requires
        forall|s: [u8; 4]| selector_spec(input@) == Some(s@) ==> #[trigger] read_word.requires((s,)),
        forall|s: [u8; 4], w: [u8; 20]|
            selector_spec(input@) == Some(s@) && #[trigger] read_word.ensures((s,), w) && !is_null(
                w@,
            ) ==> invoke.requires((w, input)),
    ensures
        selector_spec(input@) is None ==> r == Err::<Vec<u8>, DispatchError>(
            DispatchError::MalformedInput,
        ),
        selector_spec(input@) is Some ==> exists|s: [u8; 4], w: [u8; 20]|
            {
                &&& selector_spec(input@) == Some(s@)
                &&& #[trigger] read_word.ensures((s,), w)
                &&& is_null(w@) ==> r == Err::<Vec<u8>, DispatchError>(
                    DispatchError::UnknownSelector,
                )
                &&& !is_null(w@) ==> exists|out: Result<Vec<u8>, Vec<u8>>|
                    invoke.ensures((w, input), out) && r == outcome_spec(out)
            },
{
    let s = match selector_of(input.as_slice()) {
        None => return Err(DispatchError::MalformedInput),
        Some(s) => s,
    };
    let word = read_word(s);
    match facet_from_word(word) {
        Err(e) => Err(e),
        Ok(f) => {
            let out = invoke(f, input);
            propagate(out)
        },
    }
}

impl DispatchError {
    /// The bytes that a rejected call reverts with: the facet's own payload
    /// for `FacetFailed`, nothing for the other two.
    pub fn revert_data(self) -> (r: Vec<u8>)
        ensures
            match self {
                DispatchError::FacetFailed(e) => r == e,
                _ => r@.len() == 0,
            },
    {
        match self {
            DispatchError::FacetFailed(e) => e,
            _ => Vec::new(),
        }
    }
}

impl DiamondStorage {
    /// The facet that serves `input`: the one registered for its selector
    /// under this router's region.
    pub fn route(&self, input: &[u8]) -> (r: Result<[u8; 20], DispatchError>)
        requires
            self.wf(),
        ensures
            r == route_spec(self@, input@),
    {
        match selector_of(input) {
            None => Err(DispatchError::MalformedInput),
            Some(s) => {
                let region = region_id();
                match self.get(&region, &s) {
                    Some(f) => Ok(f),
                    None => Err(DispatchError::UnknownSelector),
                }
            },
        }
    }

    /// Serves one call: routes it, forwards the whole of `input` to the
    /// facet through `invoke`, and hands back what the facet answered.
    pub fn dispatch<F>(&self, input: Vec<u8>, invoke: F) -> (r: Result<Vec<u8>, DispatchError>) where
        F: FnOnce([u8; 20], Vec<u8>) -> Result<Vec<u8>, Vec<u8>>,

        requires
            self.wf(),
            route_spec(self@, input@) matches Ok(f) ==> invoke.requires((f, input)),
        ensures
            route_spec(self@, input@) matches Err(e) ==> r == Err::<Vec<u8>, DispatchError>(e),
            route_spec(self@, input@) matches Ok(f) ==> exists|out: Result<Vec<u8>, Vec<u8>>|
                invoke.ensures((f, input), out) && r == outcome_spec(out),
    {
        match self.route(input.as_slice()) {
            Err(e) => Err(e),
            Ok(f) => {
                let out = invoke(f, input);
                propagate(out)
            },
        }
    }
}

/// A call shorter than a selector is rejected as malformed, whatever the
/// table holds.
pub proof fn lemma_short_input_malformed(t: Map<RouteKey, [u8; 20]>, input: Seq<u8>)
    requires
        input.len() < SELECTOR_BYTES,
    ensures
        route_spec(t, input) == Err::<[u8; 20], DispatchError>(DispatchError::MalformedInput),
{
}

/// With an empty table, every call long enough to hold a selector is
/// rejected for an unknown selector.
pub proof fn lemma_empty_table_unknown(input: Seq<u8>)
    requires
        input.len() >= SELECTOR_BYTES,
    ensures
        route_spec(Map::empty(), input) == Err::<[u8; 20], DispatchError>(
            DispatchError::UnknownSelector,
        ),
{
}

/// A call that starts with a registered selector goes to that selector's
/// facet, and the facet's success bytes come back unchanged.
pub proof fn lemma_forwards_success(
    t: Map<RouteKey, [u8; 20]>,
    selector: Seq<u8>,
    facet: [u8; 20],
    payload: Seq<u8>,
    y: Vec<u8>,
)
    requires
        selector.len() == SELECTOR_BYTES,
    ensures
        route_spec(t.insert((diamond_region(), selector), facet), selector + payload) == Ok::<
            [u8; 20],
            DispatchError,
        >(facet),
        outcome_spec(Ok(y)) == Ok::<Vec<u8>, DispatchError>(y),
{
    assert((selector + payload).subrange(0, SELECTOR_BYTES as int) =~= selector);
}

/// A call that starts with a registered selector goes to that selector's
/// facet, and the facet's failure payload comes back byte for byte under
/// `FacetFailed`.
pub proof fn lemma_failure_verbatim(
    t: Map<RouteKey, [u8; 20]>,
    selector: Seq<u8>,
    facet: [u8; 20],
    payload: Seq<u8>,
    e: Vec<u8>,
)
    requires
        selector.len() == SELECTOR_BYTES,
    ensures
        route_spec(t.insert((diamond_region(), selector), facet), selector + payload) == Ok::<
            [u8; 20],
            DispatchError,
        >(facet),
        outcome_spec(Err(e)) == Err::<Vec<u8>, DispatchError>(DispatchError::FacetFailed(e)),
{
    assert((selector + payload).subrange(0, SELECTOR_BYTES as int) =~= selector);
}

/// Entries kept under any other region never route: a call is routed the
/// same whether or not the table holds them.
pub proof fn lemma_other_region_ignored(
    t: Map<RouteKey, [u8; 20]>,
    region: Seq<u8>,
    selector: Seq<u8>,
    facet: [u8; 20],
    input: Seq<u8>,
)
    requires
        region != diamond_region(),
    ensures
        route_spec(t.insert((region, selector), facet), input) == route_spec(t, input),
{
}

} // verus!
