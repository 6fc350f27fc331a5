use radar::ffi::transform;
use radar::json::is_json;
use radar::ffi::transform_script;
use radar::ffi::SCRIPT_HEAD;
use radar::ffi::SCRIPT_TAIL;

#[test]
fn transform_script_injects_the_record() {
    let data = "{\"Name\":\"/web\"}";
    let script = transform_script(data);
    assert_eq!(script, format!("{}{}{}", SCRIPT_HEAD, data, SCRIPT_TAIL));
    assert!(script.contains("toRunCommand({\"Name\":\"/web\"})"));
}

#[test]
fn transform_script_leaves_markers_in_the_record_alone() {
    let data = "\"<<INJECT>>\"";
    let script = transform_script(data);
    assert!(script.ends_with("toRunCommand(\"<<INJECT>>\")\n    "));
}

#[test]
fn transform_minimal_container() {
    let data = "{\"Name\":\"/web\",\"HostConfig\":{},\"Config\":{\"Image\":\"nginx\"}}";
    assert_eq!(transform(data.to_string()), Ok("docker run --name web -d nginx".to_string()));
}

#[test]
fn transform_container_with_ports_and_env() {
    let data = r#"{"Name":"/db","HostConfig":{"PortBindings":{"5432/tcp":[{"HostIp":"","HostPort":"5432"}]},"RestartPolicy":{"Name":"always"}},"Config":{"Image":"postgres","Env":["A=b"],"Tty":true}}"#;
    assert_eq!(
        transform(data.to_string()),
        Ok("docker run --name db -p 5432:5432/tcp --restart always -e 'A=b' -d -t postgres".to_string())
    );
}

#[test]
fn transform_reports_script_errors() {
    // a record that is no object: the script cannot read its name
    assert!(transform("1".to_string()).is_err());
}

#[test]
fn is_json_accepts_json_texts() {
    for s in [
        "{}",
        " [ ] ",
        "1",
        "-0.5e+10",
        "\"a\\u00e9\\n\"",
        "{\"Name\":\"/web\",\"HostConfig\":{},\"Config\":{\"Image\":\"nginx\",\"Env\":[\"A=b\"],\"Tty\":true,\"Cmd\":null}}",
        "[true, false, null, 1.25E3, {\"k\": [1, [2, [3]]]}]",
    ] {
        assert!(is_json(s), "{}", s);
    }
}

#[test]
fn is_json_refuses_other_texts() {
    for s in [
        "",
        "{",
        "{Name:\"a\"}",
        "{\"Name\":\"a\"}); for(;;){} (0",
        "01",
        "1.",
        "[1,]",
        "{\"a\":1,}",
        "'a'",
        "\"tab\there\"",
        "tru",
        "[1] 2",
    ] {
        assert!(!is_json(s), "{}", s);
    }
}
