use starling::protocol::id::{CallId, ChannelId, FlockId, RoostId};

#[test]
fn random_ids_are_independent() {
    assert_ne!(FlockId::random(), FlockId::random());
    assert_ne!(RoostId::random(), RoostId::random());
    assert_ne!(ChannelId::random(), ChannelId::random());
    assert_ne!(CallId::random(), CallId::random());

    let flock = FlockId::random();
    let roost = RoostId::random();
    assert_ne!(flock.0, roost.0);
    assert!(flock.0.iter().any(|byte| *byte != 0));
}
