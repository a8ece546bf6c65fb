//! Target configuration.

use vstd::prelude::*;

use crate::addr;
use crate::addr::{IpAddr, SocketAddr};
use crate::config;
use crate::config::{
    default_model, default_serial, BackendConfig, NamespaceConfig, SubsystemConfig,
};
use crate::harness::cntlid;
use crate::harness::cntlid::{port_cntlid_slice, CNTLID_MAX};
use crate::harness::control::MILLISECOND;
use crate::harness::port::PortLimits;
use crate::text;
use crate::text::{numbered, owned, say, say_number};

verus! {

/// Target configuration. Built from flags — optionally overlaid with a file
/// ([`TargetConfig::apply_file`]) — or [`TargetConfig::single_memory`] in tests.
#[derive(Debug)]
pub struct TargetConfig {
    /// Where to listen.
    pub listen: SocketAddr,
    /// Number of IO queue threads (in addition to the admin thread).
    pub io_threads: usize,
    /// Header digests may be negotiated.
    pub allow_hdgst: bool,
    /// Data digests may be negotiated.
    pub allow_ddgst: bool,
    /// Pin each IO queue thread to one CPU of its group (disable in tests).
    pub pin_threads: bool,
    /// Busy-poll the transport's completion sources on the IO queue threads
    /// instead of sleeping on events: trades one core per IO thread for per-IO
    /// latency.
    pub poll: bool,
    /// Zero-copy sends with notification-gated buffer reuse.
    pub send_zc: bool,
    /// Advertised IO MAXCMD ceiling (entries): the maximum IO queue depth the
    /// host may use. The admin queue is unaffected.
    pub io_queue_size: u16,
    /// Per-IO-queue data-buffer pool size in bytes (slots lease on demand).
    pub queue_buf_bytes: usize,
    /// Per-connection receive-ring size in bytes (`0` = ring off).
    pub recv_buf_bytes: usize,
    /// Unix socket path for the runtime control API.
    pub control_socket: Option<String>,
    /// Tear the queue-thread pool down after this many nanoseconds with zero
    /// active connections, respawning it on the next connect; `None` keeps the
    /// pool alive for the process lifetime once spawned.
    pub idle_teardown: Option<u128>,
    /// Subsystems served on this port.
    pub subsystems: Vec<SubsystemConfig>,
    /// Allocatable cntlid slice, inclusive. Multi-port configs give each port
    /// process a disjoint slice; single-port targets own the full range. A
    /// target serving cluster storage subdivides whatever this leaves it once
    /// more, by holder slot.
    pub cntlid_range: (u16, u16),
    /// Test-only: artificial per-write delay (microseconds) injected into
    /// memory-backed namespaces. `0` keeps writes synchronous.
    pub mem_write_delay_us: u64,
}

/// One port of a file: what it listens on and serves.
#[derive(Debug)]
pub struct PortTarget {
    /// Its id.
    pub portid: u16,
    /// Where to listen.
    pub listen: SocketAddr,
    /// The subsystems served on it.
    pub subsystems: Vec<SubsystemConfig>,
}

/// The name of the socket of a forked port process.
pub open spec fn port_socket(path: Seq<char>, portid: u16) -> Seq<char> {
    path + ".port"@ + text::decimal(portid as nat)
}

impl TargetConfig {
    /// One subsystem, one memory namespace — the test/bring-up shape, with
    /// `pool_mb` MiB of data buffers per IO queue.
    pub fn single_memory(nqn: &str, size_mb: u64, pool_mb: usize) -> (r: TargetConfig)
        requires
            pool_mb * 1048576 <= usize::MAX,
        ensures
            r.listen@ == (addr::Endpoint {
                ip: addr::Ip { v4: true, octets: seq![0u8, 0, 0, 0] },
                port: 4420,
            }),
            r.io_threads == 2,
            r.allow_hdgst,
            r.allow_ddgst,
            !r.pin_threads,
            !r.poll,
            !r.send_zc,
            r.io_queue_size == 128,
            r.queue_buf_bytes == pool_mb * 1048576,
            r.recv_buf_bytes == 0,
            r.control_socket is None,
            r.idle_teardown == Some((30_000 * MILLISECOND) as u128),
            r.cntlid_range == (1u16, CNTLID_MAX),
            r.mem_write_delay_us == 0,
            config::subs(r.subsystems@) == seq![
                config::Sub {
                    nqn: nqn@,
                    serial: "IOUTGT0001"@,
                    model: "ioutgt"@,
                    allow_any_host: true,
                    allowed_hosts: seq![],
                    sheepdog_acl: None,
                    mnan: None,
                    namespaces: seq![
                        config::Ns {
                            nsid: 1,
                            backend: config::Store::Memory { size_mb },
                            uuid: None,
                        },
                    ],
                },
            ],
    {
        let mut namespaces: Vec<NamespaceConfig> = Vec::new();
        namespaces.push(
            NamespaceConfig { nsid: 1, backend: BackendConfig::Memory { size_mb }, uuid: None },
        );
        let allowed_hosts: Vec<String> = Vec::new();
        assert(text::texts(allowed_hosts@) =~= seq![]);
        assert(config::namespaces(namespaces@) =~= seq![
            config::Ns { nsid: 1, backend: config::Store::Memory { size_mb }, uuid: None },
        ]);
        let mut subsystems: Vec<SubsystemConfig> = Vec::new();
        subsystems.push(
            SubsystemConfig {
                nqn: owned(nqn),
                serial: default_serial(),
                model: default_model(),
                allow_any_host: true,
                allowed_hosts,
                sheepdog_acl: None,
                mnan: None,
                namespaces,
            },
        );
        assert(config::subs(subsystems@) =~= seq![subsystems@[0]@]);
        let any: [u8; 4] = [0, 0, 0, 0];
        assert(any@ =~= seq![0u8, 0, 0, 0]);
        TargetConfig {
            listen: SocketAddr::new(IpAddr::V4(any), 4420),
            io_threads: 2,
            allow_hdgst: true,
            allow_ddgst: true,
            pin_threads: false,
            poll: false,
            send_zc: false,
            io_queue_size: 128,
            queue_buf_bytes: pool_mb * 1048576,
            recv_buf_bytes: 0,
            control_socket: None,
            idle_teardown: Some(30_000 * MILLISECOND),
            subsystems,
            cntlid_range: (1, CNTLID_MAX),
            mem_write_delay_us: 0,
        }
    }

    /// Overlay port `index` of the `ports` a file defines, `mine`: the file owns
    /// the target model — listen address and subsystems — while engine tuning
    /// keeps whatever the flags/defaults set.
    ///
    /// A file defining several ports is served one process per port. The
    /// foreground process keeps the lowest portid and its configured control
    /// socket; each forked port derives `<socket>.port<id>`.
    pub fn apply_file(&mut self, mine: PortTarget, index: u16, ports: u16)
        requires
            index < ports,
        ensures
            final(self).listen == mine.listen,
            final(self).subsystems == mine.subsystems,
            (final(self).cntlid_range.0 as int, final(self).cntlid_range.1 as int)
                == cntlid::port_slice(index as int, ports as int),
            config::opt(final(self).control_socket) == (match old(self).control_socket {
                Some(s) => if index > 0 {
                    Some(port_socket(s@, mine.portid))
                } else {
                    Some(s@)
                },
                None => None,
            }),
            *final(self) == (TargetConfig {
                listen: final(self).listen,
                subsystems: final(self).subsystems,
                cntlid_range: final(self).cntlid_range,
                control_socket: final(self).control_socket,
                ..*old(self)
            }),
    {
        self.listen = mine.listen;
        self.subsystems = mine.subsystems;
        self.cntlid_range = port_cntlid_slice(index, ports);
        if index > 0 {
            if let Some(path) = &self.control_socket {
                let mut sock: String = owned(path.as_str());
                say(&mut sock, ".port");
                say_number(&mut sock, mine.portid as u64);
                self.control_socket = Some(sock);
            }
        }
    }

    /// The limits the port is opened with.
    pub fn limits(&self) -> (r: PortLimits)
        ensures
            r == (PortLimits {
                io_threads: self.io_threads,
                io_queue_size: self.io_queue_size,
                queue_buf_bytes: self.queue_buf_bytes,
                recv_buf_bytes: self.recv_buf_bytes,
                poll: self.poll,
            }),
    {
        PortLimits {
            io_threads: self.io_threads,
            io_queue_size: self.io_queue_size,
            queue_buf_bytes: self.queue_buf_bytes,
            recv_buf_bytes: self.recv_buf_bytes,
            poll: self.poll,
        }
    }
}

/// How many port processes a file with `targets` ports takes.
pub fn port_count(targets: usize) -> (r: Result<u16, String>)
    ensures
        match r {
            Ok(n) => n == targets,
            Err(m) => targets > 0xffff && m@ == "too many ports"@,
        },
{
    if targets <= 0xffff {
        Ok(targets as u16)
    } else {
        Err(owned("too many ports"))
    }
}

/// Whether a process with `threads` threads may fork for the ports beyond the
/// first of `targets`. Forking duplicates only the calling thread: any other
/// thread's held lock would deadlock the child.
pub fn may_fork(targets: usize, threads: usize) -> (r: Result<(), String>)
    ensures
        match r {
            Ok(_) => targets <= 1 || threads == 1,
            Err(m) => targets > 1 && threads != 1 && m@
                == "multi-port fork needs a single-threaded process ("@ + text::decimal(
                threads as nat,
            ) + " threads running)"@,
        },
{
    if targets > 1 && threads != 1 {
        Err(
            numbered(
                "multi-port fork needs a single-threaded process (",
                threads as u64,
                " threads running)",
            ),
        )
    } else {
        Ok(())
    }
}

/// Refuse to take over a control-socket path that a running instance owns,
/// given whether a connection to it was `answered`.
///
/// A stale file from a dead instance refuses the connect (or is not a socket at
/// all) and is safe to unlink and rebind; a successful connect means another
/// target is serving this path.
pub fn refuse_live_socket(path: &str, answered: bool) -> (r: Result<(), String>)
    ensures
        match r {
            Ok(_) => !answered,
            Err(m) => answered && m@ == "control socket "@ + path@
                + " is owned by a running instance"@,
        },
{
    if answered {
        let mut m: String = owned("control socket ");
        say(&mut m, path);
        say(&mut m, " is owned by a running instance");
        Err(m)
    } else {
        Ok(())
    }
}

/// The line that announces a bound address.
pub fn announcement(name: &str, addr: &SocketAddr) -> (r: String)
    ensures
        r@ == name@ + " listening on "@ + addr::endpoint_text(addr@) + "\n"@,
{
    let mut line: String = owned(name);
    say(&mut line, " listening on ");
    let at: String = addr.to_text();
    say(&mut line, at.as_str());
    say(&mut line, "\n");
    line
}

/// The forked port processes have sockets of their own: no two of them share
/// one, and none has that of the foreground process.
pub proof fn lemma_port_sockets(path: Seq<char>, a: u16, b: u16)
    ensures
        port_socket(path, a) == port_socket(path, b) <==> a == b,
        port_socket(path, a) != path,
        text::has_prefix(port_socket(path, a), path),
{
    let x = port_socket(path, a);
    let y = port_socket(path, b);
    reveal_strlit(".port");
    text::lemma_decimal(a as nat);
    text::lemma_decimal(b as nat);
    let n = path.len() + 5;
    assert(x.skip(n as int) =~= text::decimal(a as nat));
    assert(y.skip(n as int) =~= text::decimal(b as nat));
    assert(x.take(path.len() as int) =~= path);
    assert(x.len() > path.len());
}

} // verus!
