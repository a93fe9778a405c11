use ffxivtools::server::{
    cf_ray_dc, mount_order, pack_key_name, pack_name, parse_usize, probe_target, select_languages, ContextImpl,
    PackName,
};

#[test]
fn languages_of_a_sheet() {
    assert_eq!(select_languages(&[1, 2, 3], None), Some(vec![1, 2, 3]));
    assert_eq!(select_languages(&[1, 2, 3], Some(2)), Some(vec![2]));
    assert_eq!(select_languages(&[1, 2, 3], Some(7)), None);
    assert_eq!(select_languages(&[0], Some(2)), Some(vec![0]));
}

#[test]
fn cf_ray_headers() {
    assert_eq!(cf_ray_dc(b"6b1a2f3c4d5e6f70-ICN"), Some(b"ICN".to_vec()));
    assert_eq!(cf_ray_dc(b"6b1a2f3c4d5e6f70"), None);
    assert_eq!(cf_ray_dc(b"a-b-c"), None);
}

#[test]
fn probe_targets() {
    let main = "https://ffxiv-data.dlunch.net";
    let kr = "https://ffxiv-data-kr.dlunch.net";
    assert_eq!(probe_target(None, None), main);
    assert_eq!(probe_target(Some(b"NRT"), None), main);
    assert_eq!(probe_target(Some(b"ICN"), Some(b"KR")), main);
    assert_eq!(probe_target(Some(b"NRT"), Some(b"KR")), kr);
    assert_eq!(probe_target(Some(b"NRT"), Some(b"JP")), main);
}

#[test]
fn usize_numbers() {
    assert_eq!(parse_usize(b"505"), Some(505));
    assert_eq!(parse_usize(b"+7"), Some(7));
    assert_eq!(parse_usize(b""), None);
    assert_eq!(parse_usize(b"5a"), None);
    assert_eq!(parse_usize(b"99999999999999999999999"), None);
}

#[test]
fn pack_names() {
    assert_eq!(pack_name(b"kor_505"), Some(Some(PackName { region: 0, version: 505 })));
    assert_eq!(pack_name(b"global_520_extra"), Some(Some(PackName { region: 2, version: 520 })));
    assert_eq!(pack_name(b"readme"), Some(None));
    assert_eq!(pack_name(b"kor_x"), None);
    assert_eq!(pack_name(b"jpn_500"), None);
    assert_eq!(pack_key_name(&PackName { region: 1, version: 7 }), "chn_7");
}

#[test]
fn mount_order_by_region_and_version() {
    let names: Vec<String> = ["kor_505", "global_520", "readme", "kor_510", "chn_500", "kor_0505"]
        .iter()
        .map(|x| x.to_string())
        .collect();
    let order = mount_order(&names).unwrap();
    let positions: Vec<usize> = order.iter().map(|x| x.1).collect();
    assert_eq!(positions, vec![1, 4, 3, 5, 0]);
}

#[test]
fn mount_order_refuses_unknown_region() {
    let names = vec!["kor_505".to_string(), "xyz_1".to_string()];
    assert_eq!(mount_order(&names), None);
}

#[test]
fn context_packages() {
    let entries = vec![
        ("./data/kor_505".to_string(), "kor_505".to_string()),
        ("./data/global_520".to_string(), "global_520".to_string()),
        ("./data/notes".to_string(), "notes".to_string()),
    ];
    let context = ContextImpl::new(&entries);
    let keys: Vec<&str> = context.packages.iter().map(|x| x.0.as_str()).collect();
    assert_eq!(keys, vec!["global_520", "kor_505", "all"]);
    assert_eq!(context.package("kor_505").unwrap().base_dirs(), &vec!["./data/kor_505".to_string()]);
    assert_eq!(
        context.package("all").unwrap().base_dirs(),
        &vec!["./data/global_520".to_string(), "./data/kor_505".to_string()]
    );
    assert!(context.package("chn_1").is_none());
}
