use bitgrid::update_steps::UpdateSteps;

#[test]
fn count_of_each_kind() {
    assert_eq!(UpdateSteps::Initial.count(), 0);
    assert_eq!(UpdateSteps::Update(3).count(), 3);
    assert_eq!(UpdateSteps::Clamped(8).count(), 8);
}
