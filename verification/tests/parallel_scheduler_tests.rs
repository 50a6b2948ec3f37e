#[test]
fn parallel_scheduler_simple() {}
