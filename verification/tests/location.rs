use geolocation::Location;

fn bangkok() -> Location {
    Location {
        sub_district_th: "พระบรมมหาราชวัง".to_string(),
        sub_district_en: "Phra Borom Maha Ratchawang".to_string(),
        district_th: "พระนคร".to_string(),
        district_en: "Phra Nakhon".to_string(),
        latitude: 137_563_000,
        longitude: 1_005_018_000,
        province_th: "กรุงเทพมหานคร".to_string(),
        province_en: "Bangkok".to_string(),
        address: "ถนนหน้าพระลาน".to_string(),
        address_en: "Na Phra Lan Road".to_string(),
    }
}

#[test]
fn axis_zero_is_latitude_and_axis_one_longitude() {
    let location = bangkok();
    assert_eq!(location.at(0), 137_563_000_i128);
    assert_eq!(location.at(1), 1_005_018_000_i128);
}

#[test]
fn coordinates_at_the_limits_are_widened_exactly() {
    let mut location = bangkok();
    location.latitude = i64::MIN;
    location.longitude = i64::MAX;
    assert_eq!(location.at(0), -9_223_372_036_854_775_808_i128);
    assert_eq!(location.at(1), 9_223_372_036_854_775_807_i128);
}

#[test]
fn copy_holds_every_field() {
    let location = bangkok();
    let copy = location.clone();
    assert_eq!(copy.sub_district_th, location.sub_district_th);
    assert_eq!(copy.sub_district_en, location.sub_district_en);
    assert_eq!(copy.district_th, location.district_th);
    assert_eq!(copy.district_en, location.district_en);
    assert_eq!(copy.latitude, location.latitude);
    assert_eq!(copy.longitude, location.longitude);
    assert_eq!(copy.province_th, location.province_th);
    assert_eq!(copy.province_en, location.province_en);
    assert_eq!(copy.address, location.address);
    assert_eq!(copy.address_en, location.address_en);
}
