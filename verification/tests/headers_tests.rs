use quark::headers::ConfigHeadersActions;
use quark::strmap::StrMap;
use quark::toml_model::HeaderAction;

fn str_map(pairs: &[(&str, &str)]) -> StrMap<String> {
    let mut m = StrMap::new();
    for (k, v) in pairs {
        m.insert(k.to_string(), v.to_string());
    }
    m
}

fn header_action_mock() -> HeaderAction {
    HeaderAction {
        set: Some(str_map(&[("set1", "ha1"), ("set2", "ha2")])),
        del: Some(vec!["del1".to_string(), "del2".to_string()]),
    }
}

fn get<'a>(m: &'a StrMap<String>, k: &str) -> Option<&'a String> {
    m.get(k)
}

#[test]
fn merge_headers_actions() {
    let ha = header_action_mock();
    let mut cha = Some(ConfigHeadersActions {
        set: Some(str_map(&[("set2", "cha1"), ("set3", "cha2")])),
        del: Some(vec!["del3".to_string()]),
    });
    quark::headers::merge_headers_actions(&ha, &mut cha);
    let out = cha.unwrap();
    let set = out.set.unwrap();
    assert_eq!(set.len(), 3);
    assert_eq!(get(&set, "set1").unwrap(), "ha1");
    assert_eq!(get(&set, "set2").unwrap(), "ha2");
    assert_eq!(get(&set, "set3").unwrap(), "cha2");
    let mut del = out.del.unwrap();
    del.sort();
    assert_eq!(
        del,
        vec!["del1".to_string(), "del2".to_string(), "del3".to_string()]
    );
}

#[test]
fn merge_headers_actions_ha_empty() {
    let ha = header_action_mock();
    let mut cha = None;
    quark::headers::merge_headers_actions(&ha, &mut cha);
    let out = cha.unwrap();
    let set = out.set.unwrap();
    assert_eq!(set.len(), 2);
    assert_eq!(get(&set, "set1").unwrap(), "ha1");
    assert_eq!(get(&set, "set2").unwrap(), "ha2");
    assert_eq!(out.del.unwrap(), vec!["del1".to_string(), "del2".to_string()]);
}

#[test]
fn merge_headers_actions_cha_empty() {
    let ha = HeaderAction { set: None, del: None };
    let mut cha = Some(ConfigHeadersActions {
        set: Some(str_map(&[("set1", "cha1"), ("set2", "cha2")])),
        del: Some(vec!["del1".to_string()]),
    });
    quark::headers::merge_headers_actions(&ha, &mut cha);
    let out = cha.unwrap();
    let set = out.set.unwrap();
    assert_eq!(set.len(), 2);
    assert_eq!(get(&set, "set1").unwrap(), "cha1");
    assert_eq!(get(&set, "set2").unwrap(), "cha2");
    assert_eq!(out.del.unwrap(), vec!["del1".to_string()]);
}

#[test]
fn custom_headers_sets_then_deletes() {
    let mut table = str_map(&[("x-old", "1"), ("x-gone", "2")]);
    let actions = ConfigHeadersActions {
        set: Some(str_map(&[("x-new", "3"), ("x-old", "4")])),
        del: Some(vec!["x-gone".to_string()]),
    };
    quark::headers::custom_headers(&mut table, &actions);
    assert_eq!(table.get("x-old").unwrap(), "4");
    assert_eq!(table.get("x-new").unwrap(), "3");
    assert!(table.get("x-gone").is_none());
    assert_eq!(table.len(), 2);
}

#[test]
fn merge_empty_into_present_is_identity() {
    let ha = HeaderAction { set: None, del: None };
    let mut cha = Some(ConfigHeadersActions {
        set: Some(str_map(&[("a", "b")])),
        del: Some(vec!["c".to_string()]),
    });
    quark::headers::merge_headers_actions(&ha, &mut cha);
    let out = cha.unwrap();
    let set = out.set.unwrap();
    assert_eq!(set.len(), 1);
    assert_eq!(set.get("a").unwrap(), "b");
    assert_eq!(out.del.unwrap(), vec!["c".to_string()]);
}
