//! What the command line asks for.

use crate::backend::peer::discovery::{
    default_chunk_server_socket, is_blank, joined_path, trimmed,
};
use crate::error::{Error, ErrorKind};
use crate::text::{decimal, to_decimal};
use vstd::prelude::*;

verus! {

/// How long a registration in the chunk index lasts: twelve hours, in seconds.
pub const DEFAULT_CHUNK_INDEX_TTL_SECS: u64 = 43200;

pub const DEFAULT_TOKIO_WORKER_THREADS: usize = 8;

pub const DEFAULT_LISTEN_PORT: u16 = 9876;

pub const DEFAULT_FUSE_WORKERS: u32 = 4;

pub const DEFAULT_CHUNK_SERVER_TIMEOUT_MS: u64 = 1000;

/// Where an image comes from.
#[derive(Debug, Clone, Copy, Eq, PartialEq, Structural)]
pub enum Source {
    /// A local file.
    Local,
    /// An object store.
    Oss,
    /// A Nydus image.
    Nydus,
}

/// The name of a source.
pub open spec fn source_name(source: Source) -> Seq<char> {
    match source {
        Source::Local => "local"@,
        Source::Oss => "oss"@,
        Source::Nydus => "nydus"@,
    }
}

impl Source {
    /// The name of the source.
    pub fn as_str(self) -> (r: &'static str)
        ensures
            r@ == source_name(self),
    {
        match self {
            Source::Local => "local",
            Source::Oss => "oss",
            Source::Nydus => "nydus",
        }
    }
}

/// Decides where the socket of the chunk server is: where it is said to be, else beside the
/// database. There is none where neither is given.
pub fn resolve_chunk_server_socket(chunk_db_dir: &str, chunk_server_sock: &str) -> (r: Option<
    String,
>)
    ensures
        match r {
            Some(path) => if chunk_server_sock@.len() > 0 {
                path@ == chunk_server_sock@
            } else {
                chunk_db_dir@.len() > 0 && path@ == joined_path(
                    chunk_db_dir@,
                    "chunkserver.sock"@,
                )
            },
            None => chunk_server_sock@.len() == 0 && chunk_db_dir@.len() == 0,
        },
{
    if chunk_server_sock.unicode_len() > 0 {
        Some(chunk_server_sock.to_owned())
    } else if chunk_db_dir.unicode_len() > 0 {
        Some(default_chunk_server_socket(chunk_db_dir))
    } else {
        None
    }
}

/// Decides whether images are deduplicated: both directories are given, or none is.
pub fn check_db_dirs(chunk_db_dir: &str, image_meta_dir: &str) -> (r: Result<bool, Error>)
    ensures
        match r {
            Ok(configured) => {
                &&& configured == (chunk_db_dir@.len() > 0)
                &&& configured == (image_meta_dir@.len() > 0)
            },
            Err(e) => {
                &&& (chunk_db_dir@.len() > 0) != (image_meta_dir@.len() > 0)
                &&& e.kind == ErrorKind::InvalidInput
                &&& e.message@ == "Invalid chunk_db_dir & image_meta_dir config"@
            },
        },
{
    let conf_chunk_db: bool = chunk_db_dir.unicode_len() > 0;
    let conf_image_meta: bool = image_meta_dir.unicode_len() > 0;
    if conf_image_meta != conf_chunk_db {
        return Err(
            Error::new(ErrorKind::InvalidInput, "Invalid chunk_db_dir & image_meta_dir config"),
        );
    }
    Ok(conf_chunk_db)
}

/// Refuses to mount anywhere but on Linux.
pub fn check_mount(on_linux: bool) -> (r: Result<(), Error>)
    ensures
        match r {
            Ok(_) => on_linux,
            Err(e) => {
                &&& !on_linux
                &&& e.kind == ErrorKind::Unsupported
                &&& e.message@ == "mount is only supported on Linux"@
            },
        },
{
    if !on_linux {
        return Err(Error::new(ErrorKind::Unsupported, "mount is only supported on Linux"));
    }
    Ok(())
}

/// Checks that an image is not empty.
pub fn check_image_size(source: Source, size: u64) -> (r: Result<(), Error>)
    ensures
        match r {
            Ok(_) => size > 0 || source is Nydus,
            Err(e) => {
                &&& size == 0
                &&& !(source is Nydus)
                &&& e.kind == ErrorKind::InvalidInput
                &&& e.message@ == if source is Oss {
                    "Invalid oss file"@
                } else {
                    "invalid local file"@
                }
            },
        },
{
    if size > 0 {
        return Ok(());
    }
    match source {
        Source::Oss => Err(Error::new(ErrorKind::InvalidInput, "Invalid oss file")),
        Source::Local => Err(Error::new(ErrorKind::InvalidInput, "invalid local file")),
        Source::Nydus => Ok(()),
    }
}

/// The identity of a mount in metrics.
pub fn mount_instance_id(source: Source, mountpoint: &str) -> (r: String)
    ensures
        r@ == "mount:"@ + source_name(source) + ":"@ + mountpoint@,
{
    let mut id: String = "mount:".to_owned();
    id.append(source.as_str());
    id.append(":");
    id.append(mountpoint);
    id
}

/// The identity of a chunk server in metrics.
pub fn server_instance_id(node_id: &str, advertise_addr: &str) -> (r: String)
    ensures
        r@ == "chunkserver:"@ + node_id@ + "@"@ + advertise_addr@,
{
    let mut id: String = "chunkserver:".to_owned();
    id.append(node_id);
    id.append("@");
    id.append(advertise_addr);
    id
}

/// The address on which the chunk server listens.
pub fn listen_addr(port: u16) -> (r: String)
    ensures
        r@ == "0.0.0.0:"@ + decimal(port as nat),
{
    let mut addr: String = "0.0.0.0:".to_owned();
    let n: String = to_decimal(port as u64);
    addr.append(n.as_str());
    addr
}

/// The address under which other nodes find the chunk server: the one that is given, else one
/// that only this node can reach.
pub fn advertised_addr(advertise_addr: &str, port: u16) -> (r: String)
    ensures
        r@ == if advertise_addr@.len() == 0 {
            "127.0.0.1:"@ + decimal(port as nat)
        } else {
            advertise_addr@
        },
{
    if advertise_addr.unicode_len() > 0 {
        return advertise_addr.to_owned();
    }
    let mut addr: String = "127.0.0.1:".to_owned();
    let n: String = to_decimal(port as u64);
    addr.append(n.as_str());
    addr
}

/// The name of this node: the one that is given, else the host's, else one made of the number
/// of the process.
pub fn node_name(node_id: &str, hostname: Option<String>, process_id: u32) -> (r: String)
    ensures
        r@ == if node_id@.len() > 0 {
            node_id@
        } else {
            match hostname {
                Some(name) => name@,
                None => "distill-fs-"@ + decimal(process_id as nat),
            }
        },
{
    if node_id.unicode_len() > 0 {
        return node_id.to_owned();
    }
    match hostname {
        Some(name) => name,
        None => {
            let mut name: String = "distill-fs-".to_owned();
            let n: String = to_decimal(process_id as u64);
            name.append(n.as_str());
            name
        },
    }
}

/// Decides whether the chunk server asks peers: it knows some, or can find some.
pub fn wants_peer_client(has_peers: bool, peer_discovery: &str) -> (r: bool)
    ensures
        r == (has_peers || trimmed(peer_discovery@).len() > 0),
{
    has_peers || !is_blank(peer_discovery)
}

/// An attribute of this process in metrics.
#[derive(Debug)]
pub struct Attribute {
    pub key: String,
    pub value: String,
}

/// Whether an attribute has a key and a value.
pub open spec fn is_attribute(a: Attribute, key: Seq<char>, value: Seq<char>) -> bool {
    a.key@ == key && a.value@ == value
}

/// The attributes of this process in metrics: the name of the service, that of the node, and
/// what else is given.
pub fn metrics_attributes(service_name: &str, node_id: &str, extra: Vec<Attribute>) -> (r: Vec<
    Attribute,
>)
    ensures
        r@.len() == 2 + extra@.len(),
        is_attribute(r@[0], "service.name"@, service_name@),
        is_attribute(r@[1], "node.id"@, node_id@),
        r@.skip(2) == extra@,
{
    let mut attrs: Vec<Attribute> = Vec::new();
    attrs.push(Attribute { key: "service.name".to_owned(), value: service_name.to_owned() });
    attrs.push(Attribute { key: "node.id".to_owned(), value: node_id.to_owned() });
    let mut rest: Vec<Attribute> = extra;
    attrs.append(&mut rest);
    assert(attrs@.skip(2) =~= extra@);
    attrs
}

/// The attributes of a mount in metrics, beside those of every process.
pub fn mount_attributes(source: Source, mountpoint: &str) -> (r: Vec<Attribute>)
    ensures
        r@.len() == 3,
        is_attribute(r@[0], "distill_fs.mountpoint"@, mountpoint@),
        is_attribute(r@[1], "distill_fs.src"@, source_name(source)),
        is_attribute(
            r@[2],
            "service.instance.id"@,
            "mount:"@ + source_name(source) + ":"@ + mountpoint@,
        ),
{
    let mut attrs: Vec<Attribute> = Vec::new();
    attrs.push(
        Attribute { key: "distill_fs.mountpoint".to_owned(), value: mountpoint.to_owned() },
    );
    attrs.push(
        Attribute { key: "distill_fs.src".to_owned(), value: source.as_str().to_owned() },
    );
    attrs.push(
        Attribute {
            key: "service.instance.id".to_owned(),
            value: mount_instance_id(source, mountpoint),
        },
    );
    attrs
}

/// What is given is taken as it is given; only what is not is made up.
pub proof fn law_given_names_are_kept(
    db_dir: &str,
    sock: &str,
    resolved: Option<String>,
    advertise: &str,
    port: u16,
    addr: String,
    node_id: &str,
    hostname: Option<String>,
    pid: u32,
    name: String,
)
    requires
        call_ensures(resolve_chunk_server_socket, (db_dir, sock), resolved),
        call_ensures(advertised_addr, (advertise, port), addr),
        call_ensures(node_name, (node_id, hostname, pid), name),
    ensures
        sock@.len() > 0 ==> resolved is Some && resolved->Some_0@ == sock@,
        resolved is None <==> sock@.len() == 0 && db_dir@.len() == 0,
        advertise@.len() > 0 ==> addr@ == advertise@,
        node_id@.len() > 0 ==> name@ == node_id@,
        node_id@.len() == 0 && hostname is Some ==> name@ == hostname->Some_0@,
{
}

/// Images are deduplicated where both directories are given; one without the other is refused, and
/// so is an image without data, unless it is one whose size is not known.
pub proof fn law_half_a_configuration_is_refused(
    db_dir: &str,
    meta_dir: &str,
    dirs: Result<bool, Error>,
    source: Source,
    size: u64,
    image: Result<(), Error>,
)
    requires
        call_ensures(check_db_dirs, (db_dir, meta_dir), dirs),
        call_ensures(check_image_size, (source, size), image),
    ensures
        dirs is Ok <==> (db_dir@.len() > 0 <==> meta_dir@.len() > 0),
        dirs matches Ok(on) ==> (on <==> db_dir@.len() > 0 && meta_dir@.len() > 0),
        image is Ok <==> size > 0 || source is Nydus,
{
}

/// Mounts at different places, and of different sources at one, have different identities.
pub proof fn law_mounts_are_told_apart(
    source: Source,
    a: &str,
    b: &str,
    id_a: String,
    id_b: String,
)
    requires
        call_ensures(mount_instance_id, (source, a), id_a),
        call_ensures(mount_instance_id, (source, b), id_b),
    ensures
        id_a@ == id_b@ <==> a@ == b@,
{
    let front = "mount:"@ + source_name(source) + ":"@;
    assert(id_a@ == front + a@);
    assert(id_b@ == front + b@);
    assert(id_a@.skip(front.len() as int) =~= a@);
    assert(id_b@.skip(front.len() as int) =~= b@);
}

/// The chunk server asks peers where it knows some or is told where to find some.
pub proof fn law_peers_are_asked_where_there_are_any(has_peers: bool, discovery: &str, r: bool)
    requires
        call_ensures(wants_peer_client, (has_peers, discovery), r),
    ensures
        has_peers ==> r,
        !has_peers && discovery@.len() == 0 ==> !r,
{
    if discovery@.len() == 0 {
        assert(discovery@ =~= Seq::<char>::empty());
        assert(trimmed(discovery@).len() == 0);
    }
}

/// What is given beside the name of the service and of the node is kept, and a mount is named there
/// by the identity that it has.
pub proof fn law_attributes_are_kept(
    service: &str,
    node: &str,
    extra: Vec<Attribute>,
    all: Vec<Attribute>,
    source: Source,
    mountpoint: &str,
    mount: Vec<Attribute>,
    id: String,
    i: int,
)
    requires
        call_ensures(metrics_attributes, (service, node, extra), all),
        call_ensures(mount_attributes, (source, mountpoint), mount),
        call_ensures(mount_instance_id, (source, mountpoint), id),
        0 <= i < extra@.len(),
    ensures
        all@.len() == extra@.len() + 2,
        all@[i + 2] == extra@[i],
        all@[0].value@ == service@,
        all@[1].value@ == node@,
        exists|k: int| 0 <= k < mount@.len() && (#[trigger] mount@[k]).value@ == id@,
        exists|k: int| 0 <= k < mount@.len() && (#[trigger] mount@[k]).value@ == mountpoint@,
{
    assert(all@.skip(2)[i] == extra@[i]);
    assert(mount@[2].value@ == id@);
    assert(mount@[0].value@ == mountpoint@);
}

} // verus!
