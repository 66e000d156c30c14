use std::sync::Arc;

use graphdb::entropy::custom_getrandom;
use graphdb::rpc::SubGraph;

#[test]
fn subgraph_keeps_its_client() {
    let client = Arc::new(17u32);
    let api: SubGraph<u32, ()> = SubGraph::new(client.clone());
    assert_eq!(**api.client(), 17);
    assert!(Arc::ptr_eq(api.client(), &client));
}

#[test]
fn timestamp_bytes_are_little_endian() {
    let mut buf = [0u8; 8];
    custom_getrandom(&mut buf, 0x0102_0304_0506_0708);
    assert_eq!(buf, [8, 7, 6, 5, 4, 3, 2, 1]);
    custom_getrandom(&mut buf, 1_638_348_267_014);
    assert_eq!(u64::from_le_bytes(buf), 1_638_348_267_014);
}
