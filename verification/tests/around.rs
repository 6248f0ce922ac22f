//! The vector service and the module files around generated sources.
use cnosdb::protogen::{
    flatc_args, flatc_path, generated_mod_file, mod_file, module_name, protobuf_mod_file,
};
use cnosdb::service::VectorGrpcService;

fn strings(names: &[&str]) -> Vec<String> {
    names.iter().map(|n| n.to_string()).collect()
}

type Service = VectorGrpcService<u16, &'static str, &'static str, String, (), u32>;

#[test]
fn a_service_gives_up_its_handle_once() {
    let mut service: Service =
        VectorGrpcService::new("coord", "dbms", 8904, Some("cert".to_string()), (), true);
    assert_eq!(service.addr, 8904);
    assert_eq!((service.coord, service.dbms), ("coord", "dbms"));
    assert_eq!(service.tls_config, Some("cert".to_string()));
    assert!(service.auto_generate_span);
    assert_eq!(service.stop(), None);
    service.start(5);
    service.start(6);
    assert_eq!(service.stop(), Some(6));
    assert_eq!(service.stop(), None);
}

#[test]
fn module_files() {
    assert_eq!(mod_file(&strings(&["prometheus"])), "pub mod prometheus;\n");
    assert_eq!(mod_file(&strings(&[])), "");
    assert_eq!(
        protobuf_mod_file(&strings(&["vector", "jaeger_storage_v1", "raft_service"])),
        "pub mod vector;\n#[path = \"jaeger.storage.v1.rs\"]\npub mod jaeger_storage_v1;\n\
         pub mod raft_service;\n"
    );
    assert_eq!(mod_file(&strings(&["jaeger_storage_v1"])), "pub mod jaeger_storage_v1;\n");
    assert_eq!(
        generated_mod_file(&strings(&["models"])),
        "#![allow(unused_imports)]\n#![allow(clippy::all)]\nmod protobuf_generated;\n\
         pub use protobuf_generated::*;\n\nmod flatbuffers_generated;\n\
         pub use flatbuffers_generated::models::*;\n"
    );
}

#[test]
fn module_names() {
    assert_eq!(module_name("models.fbs"), "models");
    assert_eq!(module_name("a.b.fbs"), "a");
    assert_eq!(module_name("plain"), "plain");
    assert_eq!(module_name(".hidden"), "");
    assert_eq!(module_name(""), "");
}

#[test]
fn the_flatbuffers_compiler() {
    assert_eq!(flatc_path(None), "flatc");
    assert_eq!(flatc_path(Some("/opt/flatc".to_string())), "/opt/flatc");
    assert_eq!(
        flatc_args("out", "proto/models.fbs"),
        strings(&[
            "-o",
            "out",
            "--rust",
            "--gen-mutable",
            "--gen-onefile",
            "--gen-name-strings",
            "--filename-suffix",
            "",
            "proto/models.fbs",
        ])
    );
}
