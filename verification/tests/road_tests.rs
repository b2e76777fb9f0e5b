use roadnet::road::Road;

#[test]
fn it_works() {
    let sut = Road::new(1, 1);
    assert_eq!(sut.road_id.major, 1);
    assert_eq!(sut.road_id.minor, 1);
}
