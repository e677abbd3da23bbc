use diamond_dispatch::{
    dispatch_stored, facet_from_word, propagate, region_id, region_id_of, selector_of,
    DiamondStorage, DispatchError,
};

fn facet(b: u8) -> [u8; 20] {
    let mut f = [0u8; 20];
    f[0] = b;
    f
}

fn table_with(selector: [u8; 4], f: [u8; 20]) -> DiamondStorage {
    let mut t = DiamondStorage::new();
    t.set(&region_id(), &selector, f);
    t
}

#[test]
fn short_input_is_malformed() {
    let t = table_with([1, 2, 3, 4], facet(1));
    for len in 0..4 {
        let input: Vec<u8> = vec![1, 2, 3, 4][..len].to_vec();
        let out = t.dispatch(input, |_, _| panic!("no facet may be invoked"));
        assert_eq!(out, Err(DispatchError::MalformedInput));
    }
}

#[test]
fn empty_table_rejects_every_selector() {
    let t = DiamondStorage::new();
    let inputs: Vec<Vec<u8>> = vec![vec![0, 0, 0, 0], vec![1, 2, 3, 4, 5, 6], vec![0xff; 40]];
    for input in inputs {
        let out = t.dispatch(input, |_, _| panic!("no facet may be invoked"));
        assert_eq!(out, Err(DispatchError::UnknownSelector));
    }
}

#[test]
fn unregistered_selector_is_unknown() {
    let t = table_with([1, 2, 3, 4], facet(1));
    let out = t.dispatch(vec![1, 2, 3, 5, 9], |_, _| Ok(vec![1]));
    assert_eq!(out, Err(DispatchError::UnknownSelector));
}

#[test]
fn forwards_whole_input_and_returns_success_bytes() {
    let t = table_with([0xa9, 0x05, 0x9c, 0xbb], facet(5));
    let input = vec![0xa9, 0x05, 0x9c, 0xbb, 0x10, 0x20];
    let out = t.dispatch(input.clone(), |f, data| {
        assert_eq!(f, facet(5));
        assert_eq!(data, vec![0xa9, 0x05, 0x9c, 0xbb, 0x10, 0x20]);
        Ok(vec![0xde, 0xad, 0xbe, 0xef])
    });
    assert_eq!(out, Ok(vec![0xde, 0xad, 0xbe, 0xef]));
}

#[test]
fn selector_alone_is_forwarded() {
    let t = table_with([1, 2, 3, 4], facet(5));
    let out = t.dispatch(vec![1, 2, 3, 4], |_, data| Ok(data));
    assert_eq!(out, Ok(vec![1, 2, 3, 4]));
}

#[test]
fn facet_failure_comes_back_verbatim() {
    let t = table_with([1, 2, 3, 4], facet(5));
    let e = vec![0x08, 0xc3, 0x79, 0xa0, 0, 1, 2];
    let out = t.dispatch(vec![1, 2, 3, 4, 0xaa], |_, _| Err(vec![0x08, 0xc3, 0x79, 0xa0, 0, 1, 2]));
    assert_eq!(out, Err(DispatchError::FacetFailed(e.clone())));
    assert_eq!(out.unwrap_err().revert_data(), e);
}

#[test]
fn route_picks_the_registered_facet() {
    let mut t = table_with([1, 2, 3, 4], facet(5));
    t.set(&region_id(), &[4, 3, 2, 1], facet(6));
    assert_eq!(t.route(&[1, 2, 3, 4, 0]), Ok(facet(5)));
    assert_eq!(t.route(&[4, 3, 2, 1]), Ok(facet(6)));
    assert_eq!(t.route(&[4, 3, 2]), Err(DispatchError::MalformedInput));
    t.remove(&region_id(), &[4, 3, 2, 1]);
    assert_eq!(t.route(&[4, 3, 2, 1]), Err(DispatchError::UnknownSelector));
}

#[test]
fn selector_is_the_first_four_bytes() {
    assert_eq!(selector_of(&[1, 2, 3, 4, 5]), Some([1, 2, 3, 4]));
    assert_eq!(selector_of(&[9, 8, 7, 6]), Some([9, 8, 7, 6]));
    assert_eq!(selector_of(&[1, 2, 3]), None);
    assert_eq!(selector_of(&[]), None);
}

#[test]
fn storage_word_routes_unless_null() {
    assert_eq!(facet_from_word([0u8; 20]), Err(DispatchError::UnknownSelector));
    assert_eq!(facet_from_word(facet(3)), Ok(facet(3)));
}

#[test]
fn propagate_keeps_payloads() {
    assert_eq!(propagate(Ok(vec![1, 2])), Ok(vec![1, 2]));
    assert_eq!(propagate(Err(vec![3])), Err(DispatchError::FacetFailed(vec![3])));
    assert_eq!(propagate(Ok(vec![])), Ok(vec![]));
}

#[test]
fn revert_data_of_each_error() {
    assert_eq!(DispatchError::MalformedInput.revert_data(), Vec::<u8>::new());
    assert_eq!(DispatchError::UnknownSelector.revert_data(), Vec::<u8>::new());
    assert_eq!(DispatchError::FacetFailed(vec![7, 7]).revert_data(), vec![7, 7]);
}

#[test]
fn stored_short_input_reads_nothing() {
    for len in 0..4 {
        let input: Vec<u8> = vec![1, 2, 3, 4][..len].to_vec();
        let out = dispatch_stored(
            input,
            |_| panic!("storage may not be read"),
            |_, _| panic!("no facet may be invoked"),
        );
        assert_eq!(out, Err(DispatchError::MalformedInput));
    }
}

#[test]
fn stored_null_word_is_unknown() {
    let out = dispatch_stored(
        vec![0x12, 0x34, 0x56, 0x78],
        |s| {
            assert_eq!(s, [0x12, 0x34, 0x56, 0x78]);
            [0u8; 20]
        },
        |_, _| panic!("no facet may be invoked"),
    );
    assert_eq!(out, Err(DispatchError::UnknownSelector));
}

#[test]
fn stored_word_forwards_and_returns() {
    let out = dispatch_stored(
        vec![1, 2, 3, 4, 5],
        |_| facet(9),
        |f, data| {
            assert_eq!(f, facet(9));
            assert_eq!(data, vec![1, 2, 3, 4, 5]);
            Ok(vec![0xaa])
        },
    );
    assert_eq!(out, Ok(vec![0xaa]));
    let failed = dispatch_stored(vec![1, 2, 3, 4], |_| facet(9), |_, _| Err(vec![0xee, 0x01]));
    assert_eq!(failed, Err(DispatchError::FacetFailed(vec![0xee, 0x01])));
}

#[test]
fn overwritten_facet_is_never_invoked() {
    let mut t = table_with([1, 2, 3, 4], facet(1));
    t.set(&region_id(), &[1, 2, 3, 4], facet(2));
    let out = t.dispatch(vec![1, 2, 3, 4, 0], |f, _| {
        assert_eq!(f, facet(2));
        Ok(vec![2])
    });
    assert_eq!(out, Ok(vec![2]));
}

#[test]
fn removed_selector_is_unknown() {
    let mut t = table_with([1, 2, 3, 4], facet(1));
    t.remove(&region_id(), &[1, 2, 3, 4]);
    let out = t.dispatch(vec![1, 2, 3, 4, 0], |_, _| panic!("no facet may be invoked"));
    assert_eq!(out, Err(DispatchError::UnknownSelector));
}

#[test]
fn entries_of_another_namespace_never_route() {
    let mut t = DiamondStorage::new();
    let other = region_id_of("facet.orders");
    assert_ne!(other, region_id());
    t.set(&other, &[1, 2, 3, 4], facet(1));
    let out = t.dispatch(vec![1, 2, 3, 4, 0], |_, _| panic!("no facet may be invoked"));
    assert_eq!(out, Err(DispatchError::UnknownSelector));
}
