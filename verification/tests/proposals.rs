use pbft::metadata::Proposal;

fn proposal(id: i64, subject: &str, description: &str) -> Proposal {
    Proposal { id, subject: subject.to_string(), description: description.to_string() }
}

#[test]
fn equal_proposals_are_equal() {
    assert!(proposal(1, "s", "d") == proposal(1, "s", "d"));
}

#[test]
fn proposals_differ_by_any_field() {
    assert!(proposal(1, "s", "d") != proposal(2, "s", "d"));
    assert!(proposal(1, "s", "d") != proposal(1, "t", "d"));
    assert!(proposal(1, "s", "d") != proposal(1, "s", "e"));
}

#[test]
fn proposal_equality_is_symmetric() {
    let a = proposal(3, "x", "y");
    let b = proposal(3, "x", "y");
    assert_eq!(a == b, b == a);
    assert!(a == a);
}
