use cctl_api::command::count_running_nodes;
use cctl_api::command::process_output;
use cctl_api::command::resolve_command;
use cctl_api::ports::parse_header_line;
use cctl_api::ports::parse_node_ports;
use cctl_api::ports::parse_service_line;
use cctl_api::ports::NodePortMap;
use cctl_api::proxy::generate_nginx_config;

#[test]
fn process_output_success() {
    let r = process_output(true, "exit status: 0", "out", "err").unwrap();
    assert_eq!(r.status, "success");
    assert_eq!(r.stdout, "out");
    assert_eq!(r.stderr, "err");
}

#[test]
fn process_output_failure_message() {
    let e = process_output(false, "exit status: 1", "o", "e").unwrap_err();
    assert_eq!(e, "Command failed with status: exit status: 1\nStdout: o\nStderr: e");
}

#[test]
fn resolve_command_known_name() {
    let table = "{\"cctl-infra-net-start\": \"bash start.sh\"}";
    let r = resolve_command(table, &"cctl-infra-net-start".to_string(), &None);
    assert_eq!(r, Ok("bash start.sh".to_string()));
}

#[test]
fn resolve_command_appends_joined_args() {
    let table = "{\"run\": \"echo\"}";
    let args = Some(vec!["a".to_string(), "b".to_string()]);
    assert_eq!(resolve_command(table, &"run".to_string(), &args), Ok("echo a b".to_string()));
    let empty_args = Some(Vec::new());
    assert_eq!(resolve_command(table, &"run".to_string(), &empty_args), Ok("echo ".to_string()));
}

#[test]
fn resolve_command_unknown_name() {
    let table = "{\"a\": \"x\"}";
    let e = resolve_command(table, &"missing".to_string(), &None).unwrap_err();
    assert_eq!(e, "Command not found: missing");
}

#[test]
fn resolve_command_bad_table() {
    let e = resolve_command("not json", &"a".to_string(), &None).unwrap_err();
    assert!(e.starts_with("Failed to parse JSON: "));
}

#[test]
fn count_running_nodes_counts_matching_lines() {
    let listing = "validator-group-1:cctl-node-1    RUNNING   pid 100\n\
                   validator-group-1:cctl-node-2    RUNNING   pid 101\n\
                   validator-group-1:cctl-node-3    STOPPED   Not started\n";
    assert_eq!(count_running_nodes(listing), 2);
    assert_eq!(count_running_nodes(""), 0);
}

#[test]
fn header_line_captures_node_index() {
    let line = "CCTL :: SIDECAR-12 details".to_string();
    assert_eq!(parse_header_line(&line, "CCTL :: SIDECAR-"), Some("12".to_string()));
    let bare = "CCTL :: SIDECAR-".to_string();
    assert_eq!(parse_header_line(&bare, "CCTL :: SIDECAR-"), None);
    let other = "CCTL :: NODE-3".to_string();
    assert_eq!(parse_header_line(&other, "CCTL :: SIDECAR-"), None);
}

#[test]
fn service_line_captures_port() {
    let line = "CCTL ::   MAIN-RPC  ----> 21101".to_string();
    assert_eq!(parse_service_line(&line, "MAIN-RPC"), Some(21101));
    let tight = "CCTL :: SSE ->18101".to_string();
    assert_eq!(parse_service_line(&tight, "SSE"), Some(18101));
    let wrong = "CCTL ::   MAIN-RPC  ----> 21101".to_string();
    assert_eq!(parse_service_line(&wrong, "SSE"), None);
    let no_arrow = "CCTL ::   MAIN-RPC   21101".to_string();
    assert_eq!(parse_service_line(&no_arrow, "MAIN-RPC"), None);
    let huge = "CCTL :: SSE ----> 99999999999".to_string();
    assert_eq!(parse_service_line(&huge, "SSE"), None);
}

#[test]
fn parse_node_ports_combines_both_listings() {
    let sidecar = "CCTL :: SIDECAR-1\n\
                   CCTL ::   MAIN-RPC  ----> 21101\n\
                   CCTL :: SIDECAR-2\n\
                   CCTL ::   MAIN-RPC  ----> 21102\n";
    let node = "CCTL :: NODE-1\n\
                CCTL ::   SSE  ----> 18101\n\
                CCTL :: NODE-2\n\
                CCTL ::   SSE  ----> 18102\n";
    let ports = parse_node_ports(sidecar, node);
    let main_rpc = "MAIN-RPC".to_string();
    let sse = "SSE".to_string();
    assert_eq!(ports.get_port(&"node-1".to_string(), &main_rpc), Some(21101));
    assert_eq!(ports.get_port(&"node-2".to_string(), &main_rpc), Some(21102));
    assert_eq!(ports.get_port(&"node-1".to_string(), &sse), Some(18101));
    assert_eq!(ports.get_port(&"node-2".to_string(), &sse), Some(18102));
    assert_eq!(ports.get_port(&"node-3".to_string(), &sse), None);
    assert_eq!(ports.get_port(&"node-1".to_string(), &"OTHER".to_string()), None);
}

#[test]
fn service_line_above_any_header_is_ignored() {
    let node = "CCTL ::   SSE  ----> 18101\nCCTL :: NODE-1\n";
    let ports = parse_node_ports("", node);
    assert_eq!(ports.get_port(&"node-1".to_string(), &"SSE".to_string()), None);
}

#[test]
fn later_port_overwrites_earlier_one() {
    let node = "CCTL :: NODE-1\n\
                CCTL ::   SSE  ----> 18101\n\
                CCTL ::   SSE  ----> 18999\n";
    let ports = parse_node_ports("", node);
    assert_eq!(ports.get_port(&"node-1".to_string(), &"SSE".to_string()), Some(18999));
}

#[test]
fn nginx_config_routes_services() {
    let mut ports = NodePortMap::new();
    ports.ensure_node("node-1".to_string());
    ports.set_port(&"node-1".to_string(), "MAIN-RPC".to_string(), 21101);
    ports.set_port(&"node-1".to_string(), "SSE".to_string(), 18101);
    let config = generate_nginx_config(&ports, "80");
    assert!(config.starts_with(
        "events {\n    worker_connections 1024;\n}\nhttp {\n    server {\n        listen 80;\n        server_name localhost;\n\n"
    ));
    assert!(config.contains(" location /node-1/{\n                proxy_pass http://localhost:21101/;"));
    assert!(config.contains(" location /node-1/sse/{\n                proxy_pass http://localhost:18101/;"));
    assert!(config.contains("proxy_set_header X-Forwarded-Proto $scheme;"));
    assert!(config.ends_with(" }\n}"));
}

#[test]
fn nginx_config_of_empty_map() {
    let ports = NodePortMap::new();
    let config = generate_nginx_config(&ports, "8080");
    assert_eq!(
        config,
        "events {\n    worker_connections 1024;\n}\nhttp {\n    server {\n        listen 8080;\n        server_name localhost;\n\n }\n}"
    );
}
