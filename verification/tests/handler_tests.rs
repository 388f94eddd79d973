use ollama_balancer::config::ServerConfig;
use ollama_balancer::handler::{
    dispatch_sel_opt, extract_chat_model, extract_show_model, generate_error_message,
    generate_status, merge_models, missing_model_message, no_servers_message,
    not_implemented_message, parse_models_payload, plan_chat, plan_generate, plan_show, root_message,
    route_of, DispatchPlan, GenerateVerdict, Route,
};
use ollama_balancer::registry::{add_server, snapshot_servers, sync_server, ModelConfig, Registry};

fn body(s: &str) -> Vec<u8> {
    s.as_bytes().to_vec()
}

fn model(name: &str, detail: &str) -> ModelConfig {
    ModelConfig { name: name.to_string(), detail: detail.to_string() }
}

fn add(reg: &mut Registry, addr: &str, name: &str) {
    add_server(reg, &ServerConfig { address: addr.to_string(), name: name.to_string() });
}

fn tape(n: usize) -> Vec<u64> {
    (0..3 * n as u64).map(|i| 1000 + 37 * i).collect()
}

#[test]
fn routes_cover_the_api_surface() {
    assert_eq!(route_of("/"), Route::Root);
    assert_eq!(route_of("/api/tags"), Route::Tags);
    assert_eq!(route_of("/api/show"), Route::Show);
    assert_eq!(route_of("/api/generate"), Route::Generate);
    assert_eq!(route_of("/api/chat"), Route::Chat);
    assert_eq!(route_of("/api/nope"), Route::Unknown);
}

#[test]
fn fixed_messages_match_the_api() {
    assert_eq!(root_message(), "Ollama is running");
    assert_eq!(no_servers_message(), "No available servers");
    assert_eq!(
        not_implemented_message("/api/nope"),
        "Endpoint /api/nope is not implemented"
    );
    assert_eq!(missing_model_message(), "Request body must contain a 'model' field");
}

#[test]
fn chat_model_extraction_reads_the_model_field() {
    assert_eq!(
        extract_chat_model(&body("{\"model\":\"m1\",\"messages\":[]}")),
        Ok("m1".to_string())
    );
    assert_eq!(
        extract_chat_model(&body("{\"messages\":[]}")),
        Err("Request body must contain a 'model' field".to_string())
    );
    // A non-string model is as good as none.
    assert_eq!(
        extract_chat_model(&body("{\"model\":7}")),
        Err("Request body must contain a 'model' field".to_string())
    );
    let e = extract_chat_model(&body("not-json")).unwrap_err();
    assert!(e.starts_with("Error parsing request body: "));
}

#[test]
fn show_model_extraction_falls_back_to_name() {
    assert_eq!(extract_show_model(&body("{\"model\":\"m1\"}")), Ok("m1".to_string()));
    assert_eq!(extract_show_model(&body("{\"name\":\"m2\"}")), Ok("m2".to_string()));
    assert_eq!(
        extract_show_model(&body("{\"model\":\"\",\"name\":\"m2\"}")),
        Ok("m2".to_string())
    );
    assert_eq!(
        extract_show_model(&body("{\"model\":\"\",\"name\":\"\"}")),
        Err("Request body must contain a 'model' field".to_string())
    );
}

#[test]
fn malformed_chat_body_is_a_bad_request_and_changes_nothing() {
    let mut reg = Registry::new();
    add(&mut reg, "http://a", "A");
    sync_server(&mut reg, "http://a", Some((vec![model("m1", "{}")], vec![])));
    let before_health = reg.entries[0].server.state.health;
    let p = plan_chat(&reg, &body("not-json"), &dispatch_sel_opt(), false, &tape(1));
    match p {
        DispatchPlan::BadRequest(m) => assert!(m.starts_with("Error parsing request body: ")),
        _ => panic!("expected a bad request"),
    }
    assert_eq!(reg.entries[0].server.state.health, before_health);
}

#[test]
fn chat_plan_races_the_only_carrier() {
    // A carries m1, B carries m2: chatting with m2 races B alone.
    let mut reg = Registry::new();
    add(&mut reg, "http://a", "A");
    add(&mut reg, "http://b", "B");
    sync_server(&mut reg, "http://a", Some((vec![model("m1", "{}")], vec![])));
    sync_server(&mut reg, "http://b", Some((vec![model("m2", "{}")], vec![])));
    let p = plan_chat(
        &reg,
        &body("{\"model\":\"m2\"}"),
        &dispatch_sel_opt(),
        false,
        &tape(2),
    );
    match p {
        DispatchPlan::Race(list) => assert_eq!(list, vec!["http://b".to_string()]),
        _ => panic!("expected a race"),
    }
}

#[test]
fn chat_plan_reports_no_servers() {
    let reg = Registry::new();
    let p = plan_chat(
        &reg,
        &body("{\"model\":\"m1\"}"),
        &dispatch_sel_opt(),
        false,
        &tape(0),
    );
    assert!(matches!(p, DispatchPlan::NoServers));
}

#[test]
fn show_plan_accepts_the_name_field() {
    let mut reg = Registry::new();
    add(&mut reg, "http://a", "A");
    sync_server(&mut reg, "http://a", Some((vec![model("m1", "{}")], vec![])));
    let p = plan_show(&reg, &body("{\"name\":\"m1\"}"), &dispatch_sel_opt(), false, &tape(1));
    match p {
        DispatchPlan::Race(list) => assert_eq!(list, vec!["http://a".to_string()]),
        _ => panic!("expected a race"),
    }
}

#[test]
fn generate_validates_shape_and_echoes_empty_prompts() {
    let v = plan_generate(&body("[1,2]")).unwrap();
    assert!(matches!(v, GenerateVerdict::NotObject));
    assert_eq!(generate_status(&v), 501);
    assert_eq!(generate_error_message(&v), "Request body must be a JSON object");

    let v = plan_generate(&body("{\"model\":\"m1\"}")).unwrap();
    assert!(matches!(v, GenerateVerdict::MissingFields));
    assert_eq!(
        generate_error_message(&v),
        "Request body must contain 'model' and 'prompt' fields"
    );

    let v = plan_generate(&body("{\"model\":\"m1\",\"prompt\":\"hi\"}")).unwrap();
    assert!(matches!(v, GenerateVerdict::NonEmptyPrompt));
    assert_eq!(
        generate_error_message(&v),
        "Non-empty 'prompt' field is not supported yet"
    );

    let v = plan_generate(&body("{\"model\":\"m1\",\"prompt\":\"\"}")).unwrap();
    match &v {
        GenerateVerdict::Echo(m) => assert_eq!(m, "m1"),
        _ => panic!("expected an echo"),
    }
    assert_eq!(generate_status(&v), 200);

    let e = plan_generate(&body("nope")).unwrap_err();
    assert!(e.starts_with("Error parsing request body: "));
}

#[test]
fn inventory_payload_parses_names_and_descriptors() {
    let parsed = parse_models_payload(&body(
        "{\"models\":[{\"name\":\"m1\",\"size\":3},{\"name\":\"m2\"}]}",
    ))
    .unwrap();
    assert_eq!(parsed.len(), 2);
    assert_eq!(parsed[0].name, "m1");
    assert_eq!(parsed[0].detail, "{\"name\":\"m1\",\"size\":3}");
    assert_eq!(parsed[1].name, "m2");
    // Anything malformed counts as a failed fetch.
    assert!(parse_models_payload(&body("not-json")).is_none());
    assert!(parse_models_payload(&body("{\"nomodels\":[]}")).is_none());
    assert!(parse_models_payload(&body("{\"models\":[{\"size\":3}]}")).is_none());
}

#[test]
fn merged_model_listing_dedups_by_name() {
    let mut reg = Registry::new();
    add(&mut reg, "http://a", "A");
    add(&mut reg, "http://b", "B");
    sync_server(
        &mut reg,
        "http://a",
        Some((vec![model("m1", "{\"name\":\"m1\"}"), model("m2", "{\"name\":\"m2\"}")], vec![])),
    );
    sync_server(
        &mut reg,
        "http://b",
        Some((vec![model("m2", "{\"name\":\"m2b\"}"), model("m3", "{\"name\":\"m3\"}")], vec![])),
    );
    let snaps = snapshot_servers(&reg, true);
    let merged = merge_models(&snaps);
    let names: Vec<&str> = merged.iter().map(|m| m.name.as_str()).collect();
    assert_eq!(names, vec!["m1", "m2", "m3"]);
    // The later descriptor for m2 won.
    assert_eq!(merged[1].detail, "{\"name\":\"m2b\"}");
}
