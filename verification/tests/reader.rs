use sminit::reader::{
    admit_entry, get_service_name, read_all, read_service_options, service_file_names,
    try_read_service, DirEntryReport, OptsMap, ReadError,
};
use sminit::service::ServiceOpts;

fn opts(name: &str, after: &[&str]) -> ServiceOpts {
    ServiceOpts {
        name: name.to_string(),
        cmd: format!("run {}", name),
        health_check: "sleep 1".to_string(),
        combine_log: false,
        one_shot: false,
        after: after.iter().map(|s| s.to_string()).collect(),
    }
}

fn yaml_text_to_opts(text: &str) -> ServiceOpts {
    let value: serde_yaml::Value = serde_yaml::from_str(text).unwrap();
    let after = match value.get("after") {
        Some(serde_yaml::Value::Sequence(items)) => {
            items.iter().map(|v| v.as_str().unwrap().to_string()).collect()
        }
        _ => Vec::new(),
    };
    ServiceOpts {
        name: String::new(),
        cmd: value.get("cmd").unwrap().as_str().unwrap().to_string(),
        health_check: value.get("health_check").unwrap().as_str().unwrap().to_string(),
        combine_log: value.get("combine_log").and_then(|v| v.as_bool()).unwrap_or(false),
        one_shot: value.get("one_shot").and_then(|v| v.as_bool()).unwrap_or(false),
        after,
    }
}

fn report(file_name: &str, parsed: Result<ServiceOpts, String>) -> DirEntryReport {
    DirEntryReport {
        path: format!("/srv/{}", file_name),
        is_file: true,
        open_failure: None,
        file_name: Some(file_name.to_string()),
        parsed,
    }
}

#[test]
fn test_read_service_options_valid() {
    let name = "s1";
    let parsed = yaml_text_to_opts(
        "\ncmd: echo hi\nhealth_check: sleep 1\ncombine_log: false\none_shot: false\nafter: \n - s1\n - s2",
    );
    let opts = read_service_options(name.to_string(), Ok(parsed)).unwrap();
    let given = ServiceOpts {
        name: "s1".to_string(),
        cmd: "echo hi".to_string(),
        health_check: "sleep 1".to_string(),
        combine_log: false,
        one_shot: false,
        after: Vec::from(["s1".to_string(), "s2".to_string()]),
    };
    assert_eq!(opts, given);
}

#[test]
fn read_service_options_reports_decoder_error() {
    let res = read_service_options("s1".to_string(), Err("bad yaml".to_string()));
    assert!(matches!(res, Err(ReadError::Parse(m)) if m == "bad yaml"));
}

#[test]
fn service_name_from_yaml_and_yml() {
    assert_eq!(get_service_name("web.yaml").unwrap(), "web");
    assert_eq!(get_service_name("db.yml").unwrap(), "db");
    assert_eq!(get_service_name(".yaml").unwrap(), "");
}

#[test]
fn service_name_rejects_bad_shapes() {
    assert!(matches!(get_service_name("web"), Err(ReadError::InvalidFileName(f)) if f == "web"));
    assert!(matches!(get_service_name("a.b.yaml"), Err(ReadError::InvalidFileName(f)) if f == "a.b.yaml"));
    assert!(matches!(get_service_name("s1.someOtherExtension"), Err(ReadError::InvalidExtension(f)) if f == "s1.someOtherExtension"));
    assert!(matches!(get_service_name("s1.YAML"), Err(ReadError::InvalidExtension(_))));
}

#[test]
fn service_file_names_in_order() {
    let (yaml, yml) = service_file_names("hello");
    assert_eq!(yaml, "hello.yaml");
    assert_eq!(yml, "hello.yml");
    assert_eq!(get_service_name(&yaml).unwrap(), "hello");
    assert_eq!(get_service_name(&yml).unwrap(), "hello");
}

#[test]
fn try_read_prefers_yaml_file() {
    let res = try_read_service(
        "web".to_string(),
        "/srv".to_string(),
        Some(Ok(opts("", &[]))),
        Some(Ok(opts("other", &["x"]))),
    )
    .unwrap();
    assert_eq!(res.name, "web");
    assert_eq!(res.cmd, "run ");
    assert!(res.after.is_empty());
}

#[test]
fn try_read_falls_back_to_yml_only_when_yaml_missing() {
    let res = try_read_service("web".to_string(), "/srv".to_string(), None, Some(Ok(opts("", &["db"]))))
        .unwrap();
    assert_eq!(res.name, "web");
    assert_eq!(res.after, vec!["db".to_string()]);
    // a .yaml file that does not decode is an error, even when a .yml file exists
    let res = try_read_service(
        "web".to_string(),
        "/srv".to_string(),
        Some(Err("broken".to_string())),
        Some(Ok(opts("", &[]))),
    );
    assert!(matches!(res, Err(ReadError::Parse(_))));
}

#[test]
fn try_read_not_found() {
    let res = try_read_service("web".to_string(), "/srv".to_string(), None, None);
    assert!(matches!(res, Err(ReadError::NotFound { name, dir }) if name == "web" && dir == "/srv"));
}

#[test]
fn read_all_collects_valid_definitions() {
    let reports = vec![
        report("a.yaml", Ok(opts("", &[]))),
        report("b.yml", Ok(opts("", &["a"]))),
        report("c.yaml", Ok(opts("", &["a", "b"]))),
    ];
    let map = read_all("/srv", reports).unwrap();
    assert_eq!(map.len(), 3);
    let names: Vec<&str> = map.entries().iter().map(|o| o.name.as_str()).collect();
    assert_eq!(names, vec!["a", "b", "c"]);
    assert_eq!(map.entries()[2].after, vec!["a".to_string(), "b".to_string()]);
}

#[test]
fn read_all_same_name_replaces_in_place() {
    let mut first = opts("", &[]);
    first.cmd = "first".to_string();
    let mut second = opts("", &[]);
    second.cmd = "second".to_string();
    let reports = vec![report("a.yaml", Ok(first)), report("b.yaml", Ok(opts("", &[]))), report("a.yml", Ok(second))];
    let map = read_all("/srv", reports).unwrap();
    assert_eq!(map.len(), 2);
    assert_eq!(map.entries()[0].name, "a");
    assert_eq!(map.entries()[0].cmd, "second");
}

#[test]
fn read_all_rejects_invalid_options() {
    let reports = vec![report("a.yaml", Ok(opts("", &[]))), report("s1.yaml", Err("some invalid options text".to_string()))];
    assert!(matches!(read_all("/srv", reports), Err(ReadError::Parse(_))));
}

#[test]
fn read_all_rejects_non_yaml() {
    let reports = vec![report("a.yaml", Ok(opts("", &[]))), report("s1.someOtherExtension", Ok(opts("", &[])))];
    assert!(matches!(read_all("/srv", reports), Err(ReadError::InvalidExtension(_))));
}

#[test]
fn read_all_checks_in_order() {
    // not a regular file: reported before anything else about the entry
    let mut dir_entry = report("sub.yaml", Ok(opts("", &[])));
    dir_entry.is_file = false;
    let res = read_all("/srv", vec![dir_entry]);
    assert!(matches!(res, Err(ReadError::NotRegularFile { dir, path }) if dir == "/srv" && path == "/srv/sub.yaml"));

    // a file that cannot be opened is reported before its name is checked
    let mut unopened = report("bad", Ok(opts("", &[])));
    unopened.open_failure = Some("permission denied".to_string());
    assert!(matches!(read_all("/srv", vec![unopened]), Err(ReadError::Io(m)) if m == "permission denied"));

    // a name that is not unicode
    let mut odd = report("x.yaml", Ok(opts("", &[])));
    odd.file_name = None;
    assert!(matches!(read_all("/srv", vec![odd]), Err(ReadError::NotUnicode(p)) if p == "/srv/x.yaml"));

    // the first failing entry decides
    let reports = vec![report("x.txt", Ok(opts("", &[]))), report("y.yaml", Err("bad".to_string()))];
    assert!(matches!(read_all("/srv", reports), Err(ReadError::InvalidExtension(_))));
}

#[test]
fn admit_entry_leaves_map_on_error() {
    let mut map = OptsMap::new();
    admit_entry(&mut map, "/srv", report("a.yaml", Ok(opts("", &[])))).unwrap();
    let res = admit_entry(&mut map, "/srv", report("b", Ok(opts("", &[]))));
    assert!(res.is_err());
    assert_eq!(map.len(), 1);
    assert!(map.contains_key(&"a".to_string()));
    assert!(!map.contains_key(&"b".to_string()));
}
