use sorbus::green::TreeBuilder;
use sorbus::Kind;

#[test]
fn whoops_linked_list() {
    const RECURSION_FACTOR: usize = 16;
    const KIND: Kind = Kind(0);

    let mut builder = TreeBuilder::new();
    for _ in 0..RECURSION_FACTOR {
        builder.start_node(KIND);
    }
    builder.token(KIND, b" ");
    for _ in 0..RECURSION_FACTOR {
        builder.finish_node();
    }
    let _tree = builder.finish();
}
