//! The reverse-proxy configuration generator: turns the discovered port map
//! into a static config routing `/node-{n}/{service}/` path prefixes to
//! `http://localhost:{port}/`, with each node's primary RPC service mapped
//! to the bare `/node-{n}/` prefix. Writing the file is the caller's I/O.

use vstd::prelude::*;

use crate::ports::NodePortMap;
use crate::text::i32_to_string;
use crate::text::spec_int_string;

verus! {

/// What lowercasing a service name yields: a function of the characters
/// alone.
pub uninterp spec fn lower_of(s: Seq<char>) -> Seq<char>;

/// Relies on str::to_lowercase: the result depends on the characters of the
/// input alone, and an empty input stays empty.
#[verifier::external_body]
fn lowercase(s: &str) -> (r: String)
    ensures
        r@ == lower_of(s@),
        s@.len() == 0 ==> r@.len() == 0,
{
    s.to_lowercase()
}

/// The location prefix of one service: the bare node prefix for the
/// primary RPC service, the node-and-service prefix otherwise.
pub open spec fn spec_location_block(node: Seq<char>, service_lower: Seq<char>) -> Seq<char> {
    if service_lower == "main-rpc"@ {
        " location /"@ + node + "/"@
    } else {
        " location /"@ + node + "/"@ + service_lower + "/"@
    }
}

/// The full location block of one service of one node.
pub open spec fn spec_service_block(node: Seq<char>, service: Seq<char>, port: i32) -> Seq<char> {
    spec_location_block(node, lower_of(service)) + "{\n                "@
        + "proxy_pass http://localhost:"@ + spec_int_string(port as int) + "/;"@
        + "\n                proxy_set_header Host $host;\n                proxy_set_header X-Real-IP $remote_addr;\n                proxy_set_header X-Forwarded-For $proxy_add_x_forwarded_for;\n                proxy_set_header X-Forwarded-Proto $scheme;\n            }\n            "@
}

/// The location blocks of all services of one node, in recorded order.
pub open spec fn spec_node_blocks(node: Seq<char>, svcs: Seq<(Seq<char>, i32)>) -> Seq<char>
    decreases svcs.len(),
{
    if svcs.len() == 0 {
        Seq::empty()
    } else {
        spec_node_blocks(node, svcs.drop_last()) + spec_service_block(
            node,
            svcs.last().0,
            svcs.last().1,
        )
    }
}

/// The location blocks of all nodes, in discovery order.
pub open spec fn spec_all_blocks(nodes: Seq<(Seq<char>, Seq<(Seq<char>, i32)>)>) -> Seq<char>
    decreases nodes.len(),
{
    if nodes.len() == 0 {
        Seq::empty()
    } else {
        spec_all_blocks(nodes.drop_last()) + spec_node_blocks(
            nodes.last().0,
            nodes.last().1,
        )
    }
}

/// The whole configuration text for the given listen port and port map.
pub open spec fn spec_nginx_config(
    proxy_port: Seq<char>,
    nodes: Seq<(Seq<char>, Seq<(Seq<char>, i32)>)>,
) -> Seq<char> {
    "events {\n    worker_connections 1024;\n}\nhttp {\n    server {\n        listen "@
        + proxy_port + ";\n        server_name localhost;\n\n"@ + spec_all_blocks(nodes)
        + " }\n}"@
}

/// Renders the reverse-proxy configuration for `ports`, listening on
/// `proxy_port`.
pub fn generate_nginx_config(ports: &NodePortMap, proxy_port: &str) -> (r: String)
    ensures
        r@ == spec_nginx_config(proxy_port@, ports.model()),
{
    let ghost m = ports.model();
    proof {
        ports.lemma_model_len();
    }
    let mut config = String::from_str(
        "events {\n    worker_connections 1024;\n}\nhttp {\n    server {\n        listen ",
    );
    config.append(proxy_port);
    config.append(";\n        server_name localhost;\n\n");
    let ghost header = config@;
    let mut i: usize = 0;
    while i < ports.nodes.len()
        invariant
            m == ports.model(),
            m.len() == ports.nodes@.len(),
            i <= m.len(),
            config@ == header + spec_all_blocks(m.take(i as int)),
        decreases m.len() - i,
    {
        proof {
            assert(m.take(i + 1).drop_last() =~= m.take(i as int));
            assert(m.take(i + 1).last() == m[i as int]);
            ports.lemma_model_index(i as int);
        }
        let ghost node = m[i as int].0;
        let ghost svcs = m[i as int].1;
        let mut j: usize = 0;
        while j < ports.nodes[i].1.len()
            invariant
                m == ports.model(),
                m.len() == ports.nodes@.len(),
                i < m.len(),
                node == m[i as int].0,
                svcs == m[i as int].1,
                svcs.len() == ports.nodes@[i as int].1@.len(),
                j <= svcs.len(),
                config@ == header + spec_all_blocks(m.take(i as int)) + spec_node_blocks(
                    node,
                    svcs.take(j as int),
                ),
            decreases svcs.len() - j,
        {
            proof {
                ports.lemma_model_len();
                ports.lemma_model_index(i as int);
                assert(svcs.take(j + 1).drop_last() =~= svcs.take(j as int));
                assert(svcs.take(j + 1).last() == svcs[j as int]);
                assert(svcs[j as int] == (
                    ports.nodes@[i as int].1@[j as int].0@,
                    ports.nodes@[i as int].1@[j as int].1,
                ));
            }
            let service_lower = lowercase(ports.nodes[i].1[j].0.as_str());
            let port = ports.nodes[i].1[j].1;
            config.append(" location /");
            config.append(ports.nodes[i].0.as_str());
            config.append("/");
            if !service_lower.eq(&String::from_str("main-rpc")) {
                config.append(service_lower.as_str());
                config.append("/");
            }
            config.append("{\n                ");
            config.append("proxy_pass http://localhost:");
            config.append(i32_to_string(port).as_str());
            config.append("/;");
            config.append(
                "\n                proxy_set_header Host $host;\n                proxy_set_header X-Real-IP $remote_addr;\n                proxy_set_header X-Forwarded-For $proxy_add_x_forwarded_for;\n                proxy_set_header X-Forwarded-Proto $scheme;\n            }\n            ",
            );
            proof {
                assert(ports.nodes@[i as int].0@ == node);
            }
            j = j + 1;
        }
        proof {
            assert(svcs.take(svcs.len() as int) =~= svcs);
        }
        i = i + 1;
    }
    proof {
        assert(m.take(m.len() as int) =~= m);
    }
    config.append(" }\n}");
    config
}

} // verus!
