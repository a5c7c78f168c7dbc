use distill_fs::backend::capacity::{parse_chunk_db_size, validate_size};
use distill_fs::backend::peer::discovery::default_chunk_server_socket;
use distill_fs::cli::{
    advertised_addr, check_db_dirs, check_image_size, check_mount, listen_addr, metrics_attributes,
    mount_attributes, mount_instance_id, node_name, resolve_chunk_server_socket,
    server_instance_id, wants_peer_client, Attribute, Source,
};
use distill_fs::error::ErrorKind;

fn value<'a>(attrs: &'a [Attribute], key: &str) -> Option<&'a str> {
    attrs
        .iter()
        .find(|a| a.key == key)
        .map(|a| a.value.as_str())
}

fn attribute(key: &str, value: &str) -> Attribute {
    Attribute {
        key: key.to_string(),
        value: value.to_string(),
    }
}

#[test]
fn sizes_are_checked_without_rounding() {
    assert_eq!(parse_chunk_db_size("64MiB", 4096).unwrap(), 64 << 20);
    assert_eq!(parse_chunk_db_size("1048576", 4096).unwrap(), 1 << 20);
    for value in [
        "0",
        "-1",
        "1Mi",
        "1.5GiB",
        "1MB",
        "1048577",
        "1KiB",
        "18446744073709551615TiB",
        "",
    ] {
        assert!(parse_chunk_db_size(value, 4096).is_err(), "{value}");
    }
}

#[test]
fn sizes_are_refused_for_their_fault() {
    assert_eq!(
        parse_chunk_db_size("1MB", 4096).unwrap_err(),
        "use whole bytes or an integer with B, KiB, MiB, GiB, TiB"
    );
    assert_eq!(
        parse_chunk_db_size("", 4096).unwrap_err(),
        "invalid or overflowing ChunkDB size"
    );
    assert_eq!(
        parse_chunk_db_size("1048577", 4096).unwrap_err(),
        "ChunkDB size must be a multiple of the system page size (4096 bytes)"
    );
    assert_eq!(
        validate_size(1, 4096).unwrap_err(),
        "ChunkDB size must be at least 1MiB"
    );
    assert_eq!(
        validate_size(usize::MAX, 4096).unwrap_err(),
        "ChunkDB size exceeds addressable range"
    );
    assert_eq!(
        validate_size(1 << 20, 0).unwrap_err(),
        "cannot determine system page size"
    );
    assert_eq!(parse_chunk_db_size("2GiB", 4096).unwrap(), 2 << 30);
    assert_eq!(parse_chunk_db_size("1TiB", 4096).unwrap(), 1 << 40);
    assert_eq!(parse_chunk_db_size("1024KiB", 4096).unwrap(), 1 << 20);
    assert_eq!(parse_chunk_db_size("1048576B", 4096).unwrap(), 1 << 20);
}

#[test]
fn resolve_chunk_server_socket_prefers_explicit_path() {
    let socket = resolve_chunk_server_socket("/tmp/chunkdb", "/tmp/custom.sock");

    assert_eq!(socket, Some("/tmp/custom.sock".to_string()));
}

#[test]
fn resolve_chunk_server_socket_defaults_to_chunkdb_path() {
    let socket = resolve_chunk_server_socket("/tmp/chunkdb", "");

    assert_eq!(socket, Some(default_chunk_server_socket("/tmp/chunkdb")));
    assert_eq!(socket.unwrap(), "/tmp/chunkdb/chunkserver.sock");
}

#[test]
fn the_socket_path_is_joined_like_a_path() {
    assert_eq!(default_chunk_server_socket(""), "chunkserver.sock");
    assert_eq!(default_chunk_server_socket("/db/"), "/db/chunkserver.sock");
    assert_eq!(
        std::path::Path::new("/db").join("chunkserver.sock"),
        std::path::PathBuf::from(default_chunk_server_socket("/db"))
    );
    assert_eq!(resolve_chunk_server_socket("", ""), None);
}

#[test]
fn build_metrics_resource_includes_mount_attrs_and_instance_id() {
    let attrs = metrics_attributes(
        "distill-fs-mount",
        "node-a",
        vec![
            attribute("distill_fs.mountpoint", "/mnt/distill"),
            attribute("distill_fs.src", "oss"),
            attribute("service.instance.id", "mount:oss:/mnt/distill"),
        ],
    );

    assert_eq!(value(&attrs, "service.name"), Some("distill-fs-mount"));
    assert_eq!(value(&attrs, "node.id"), Some("node-a"));
    assert_eq!(value(&attrs, "distill_fs.mountpoint"), Some("/mnt/distill"));
    assert_eq!(value(&attrs, "distill_fs.src"), Some("oss"));
    assert_eq!(
        value(&attrs, "service.instance.id"),
        Some("mount:oss:/mnt/distill")
    );
}

#[test]
fn build_metrics_resource_excludes_mount_attrs_for_chunkserver() {
    let attrs = metrics_attributes(
        "distill-fs-chunkserver",
        "node-b",
        vec![attribute(
            "service.instance.id",
            "chunkserver:node-b@10.0.0.1:9876",
        )],
    );

    assert_eq!(
        value(&attrs, "service.instance.id"),
        Some("chunkserver:node-b@10.0.0.1:9876")
    );
    assert_eq!(value(&attrs, "distill_fs.mountpoint"), None);
    assert_eq!(value(&attrs, "distill_fs.src"), None);
}

#[test]
fn identities_name_what_runs() {
    let attrs = mount_attributes(Source::Oss, "/mnt/distill");
    assert_eq!(value(&attrs, "distill_fs.src"), Some("oss"));
    assert_eq!(
        value(&attrs, "service.instance.id"),
        Some("mount:oss:/mnt/distill")
    );
    assert_eq!(mount_instance_id(Source::Nydus, "/m"), "mount:nydus:/m");
    assert_eq!(
        server_instance_id("node-b", "10.0.0.1:9876"),
        "chunkserver:node-b@10.0.0.1:9876"
    );
    assert_eq!(Source::Local.as_str(), "local");
}

#[test]
fn addresses_come_from_the_port() {
    assert_eq!(listen_addr(9876), "0.0.0.0:9876");
    assert_eq!(advertised_addr("", 80), "127.0.0.1:80");
    assert_eq!(advertised_addr("10.0.0.1:9", 80), "10.0.0.1:9");
}

#[test]
fn nodes_have_names() {
    assert_eq!(node_name("a", Some("host".to_string()), 7), "a");
    assert_eq!(node_name("", Some("host".to_string()), 7), "host");
    assert_eq!(node_name("", None, 7), "distill-fs-7");
}

#[test]
fn both_directories_or_none() {
    assert!(check_db_dirs("a", "b").unwrap());
    assert!(!check_db_dirs("", "").unwrap());
    for (a, b) in [("a", ""), ("", "b")] {
        let e = check_db_dirs(a, b).unwrap_err();
        assert_eq!(e.kind, ErrorKind::InvalidInput);
        assert_eq!(e.message, "Invalid chunk_db_dir & image_meta_dir config");
    }
}

#[test]
fn empty_images_are_refused() {
    assert!(check_image_size(Source::Oss, 1).is_ok());
    assert_eq!(
        check_image_size(Source::Oss, 0).unwrap_err().message,
        "Invalid oss file"
    );
    assert_eq!(
        check_image_size(Source::Local, 0).unwrap_err().message,
        "invalid local file"
    );
    assert!(check_image_size(Source::Nydus, 0).is_ok());
}

#[test]
fn peers_are_asked_where_there_can_be_some() {
    assert!(wants_peer_client(true, ""));
    assert!(wants_peer_client(false, "redis://x"));
    assert!(!wants_peer_client(false, " \t"));
}

#[test]
fn mounting_needs_linux() {
    assert!(check_mount(true).is_ok());
    let e = check_mount(false).unwrap_err();
    assert_eq!(e.kind, ErrorKind::Unsupported);
    assert_eq!(e.message, "mount is only supported on Linux");
}
