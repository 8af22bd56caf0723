//! Configuration of groups, storage engines and the daemon.
use vstd::prelude::*;

use crate::backend::{CleanCfg, Time};
use crate::table::{Align, Style};

verus! {

/// Where a group's records are kept.
#[derive(Debug, Clone)]
pub enum Storage {
    /// A persistent store at the given path.
    Disk(String),
    /// A table in this process's memory.
    Memory,
}

/// The identifier of the storage class an engine is cached under:
/// engines are shared per class, not per group.
pub open spec fn spec_class_id(s: Storage) -> Seq<char> {
    match s {
        Storage::Memory => "memory"@,
        Storage::Disk(p) => "disk:"@ + p@,
    }
}

impl Storage {
    /// The identifier of this storage class.
    pub fn class_id(&self) -> (r: String)
        ensures
            r@ == spec_class_id(*self),
    {
        match self {
            Storage::Memory => {
                let mut out = String::new();
                out.append("memory");
                proof {
                    assert(out@ =~= "memory"@);
                }
                out
            },
            Storage::Disk(p) => {
                let mut out = String::new();
                out.append("disk:");
                out.append(p.as_str());
                proof {
                    assert(out@ =~= "disk:"@ + p@);
                }
                out
            },
        }
    }
}

/// When a group's records expire: never, at the last login, at the last
/// boot, or a fixed number of seconds after their last use.
#[derive(Debug, Clone)]
pub enum Expiration {
    Never,
    OnLogin,
    OnReboot,
    Duration(u64),
}

/// The fixed expiration moment: the environment's login or boot moment
/// for the policies that name one, nothing otherwise.
pub open spec fn spec_fixed_expiration(
    e: Expiration,
    login: Option<Time>,
    boot: Option<Time>,
) -> Option<Time> {
    match e {
        Expiration::OnLogin => login,
        Expiration::OnReboot => boot,
        _ => None,
    }
}

/// The dynamic expiration moment: the configured lifetime before `now`,
/// clamped at the epoch; nothing for the other policies.
pub open spec fn spec_dynamic_expiration(e: Expiration, now: Time) -> Option<Time> {
    match e {
        Expiration::Duration(secs) => {
            let cut = (secs as int) * 1000;
            if now >= cut {
                Some((now - cut) as u64)
            } else {
                Some(0u64)
            }
        },
        _ => None,
    }
}

impl Expiration {
    /// Resolve the fixed expiration moment from the environment's login
    /// and boot moments.
    pub fn fixed_expiration(&self, login: Option<Time>, boot: Option<Time>) -> (r: Option<Time>)
        ensures
            r == spec_fixed_expiration(*self, login, boot),
    {
        match self {
            Expiration::OnLogin => login,
            Expiration::OnReboot => boot,
            _ => None,
        }
    }

    /// Resolve the dynamic expiration moment relative to `now`.
    pub fn dynamic_expiration(&self, now: Time) -> (r: Option<Time>)
        ensures
            r == spec_dynamic_expiration(*self, now),
    {
        match self {
            Expiration::Duration(secs) => {
                if *secs <= u64::MAX / 1000 {
                    let cut = *secs * 1000;
                    proof {
                        assert((*secs) as int * 1000 <= u64::MAX) by (nonlinear_arith)
                            requires
                                *secs <= u64::MAX / 1000,
                                u64::MAX == u64::MAX / 1000 * 1000 + u64::MAX % 1000,
                        {
                        }
                    }
                    if now >= cut {
                        Some(now - cut)
                    } else {
                        Some(0)
                    }
                } else {
                    proof {
                        assert((*secs) as int * 1000 > u64::MAX) by (nonlinear_arith)
                            requires
                                *secs > u64::MAX / 1000,
                                u64::MAX == u64::MAX / 1000 * 1000 + u64::MAX % 1000,
                        {
                        }
                    }
                    Some(0)
                }
            },
            _ => None,
        }
    }
}

/// Relies on lastlog's `search_self`: the moment of the current user's
/// last login, when the system's login records give one.  The result
/// depends on the machine's records, so nothing further is assumed.
#[verifier::external_body]
pub fn last_login_millis() -> (r: Option<Time>) {
    let rec = lastlog::search_self().ok()?;
    let at: std::time::SystemTime = Into::<Option<std::time::SystemTime>>::into(rec.last_login)?;
    let since = at.duration_since(std::time::UNIX_EPOCH).ok()?;
    u64::try_from(since.as_millis()).ok()
}

/// One group's configuration: its storage class and eviction settings.
#[derive(Debug, Clone)]
pub struct CategoryConfig {
    pub storage: Storage,
    pub expiration: Expiration,
    pub max_entries: Option<usize>,
}

/// The configuration synthesized for a group nothing configures: held
/// in memory, expiring at reboot, uncapped.
pub open spec fn default_cat() -> CategoryConfig {
    CategoryConfig { storage: Storage::Memory, expiration: Expiration::OnReboot, max_entries: None }
}

impl Default for CategoryConfig {
    /// By default a group lives in memory and expires at reboot.
    fn default() -> (r: CategoryConfig)
        ensures
            r == default_cat(),
    {
        CategoryConfig { storage: Storage::Memory, expiration: Expiration::OnReboot, max_entries: None }
    }
}

/// The environment moments the fixed expiration policies refer to,
/// resolved once by the caller.
#[derive(Debug, Clone, Copy)]
pub struct Moments {
    pub login: Option<Time>,
    pub boot: Option<Time>,
}

/// The cleanup thresholds a group configuration yields at `now`.
pub open spec fn spec_clean_cfg(c: CategoryConfig, now: Time, m: Moments) -> CleanCfg {
    CleanCfg {
        fixed: spec_fixed_expiration(c.expiration, m.login, m.boot),
        dynamic: spec_dynamic_expiration(c.expiration, now),
        max_entries: c.max_entries,
    }
}

impl CategoryConfig {
    /// Derive the cleanup thresholds in force at `now`.
    pub fn clean_cfg(&self, now: Time, m: Moments) -> (r: CleanCfg)
        ensures
            r == spec_clean_cfg(*self, now, m),
    {
        CleanCfg {
            fixed: self.expiration.fixed_expiration(m.login, m.boot),
            dynamic: self.expiration.dynamic_expiration(now),
            max_entries: self.max_entries,
        }
    }
}

/// Per-group configuration, keyed by group name.
pub type BackendConfig = Vec<(String, CategoryConfig)>;

/// The daemon's own settings.
#[derive(Debug, Clone)]
pub struct DaemonConfig {
    /// Stop an already-running instance instead of giving up.
    pub kill: bool,
    /// Watch the live clipboard for external copies.
    pub capture_live: bool,
    /// Re-assert accepted live copies onto the other selection.
    pub recopy_live: bool,
    /// Per-group configuration.
    pub backends: BackendConfig,
    /// The group for requests that name none.
    pub term_backend: Option<String>,
    /// The group for captured live entries.
    pub live_backend: Option<String>,
}

impl Default for DaemonConfig {
    /// By default the daemon captures live copies into the default group.
    fn default() -> (r: DaemonConfig)
        ensures
            !r.kill,
            r.capture_live,
            !r.recopy_live,
            r.backends@ == Seq::<(String, CategoryConfig)>::empty(),
            r.term_backend is None,
            r.live_backend is None,
    {
        DaemonConfig {
            kill: false,
            capture_live: true,
            recopy_live: false,
            backends: Vec::new(),
            term_backend: None,
            live_backend: None,
        }
    }
}

/// How listings are drawn.
#[derive(Debug, Clone)]
pub struct TableConfig {
    pub style: Style,
    pub index_align: Align,
    pub preview_align: Align,
    pub time_align: Align,
}

impl Default for TableConfig {
    /// By default indexes are pushed right, everything else left.
    fn default() -> (r: TableConfig)
        ensures
            r.style == Style::Fancy,
            r.index_align == Align::Right,
            r.preview_align == Align::Left,
            r.time_align == Align::Left,
    {
        TableConfig {
            style: Style::Fancy,
            index_align: Align::Right,
            preview_align: Align::Left,
            time_align: Align::Left,
        }
    }
}

/// Settings of the listing commands.
#[derive(Debug, Clone)]
pub struct ListConfig {
    pub default_group: Option<String>,
    pub preview_length: usize,
    pub table: TableConfig,
}

impl Default for ListConfig {
    /// By default previews are cut at eighty characters.
    fn default() -> (r: ListConfig)
        ensures
            r.default_group is None,
            r.preview_length == 80,
            r.table.style == Style::Fancy,
    {
        ListConfig { default_group: None, preview_length: 80, table: TableConfig::default() }
    }
}

/// The whole configuration file.
#[derive(Debug, Clone)]
pub struct Config {
    pub socket: Option<String>,
    pub list: ListConfig,
    pub daemon: DaemonConfig,
}

impl Default for Config {
    /// An empty configuration: every setting at its default.
    fn default() -> (r: Config)
        ensures
            r.socket is None,
            r.list.preview_length == 80,
            r.daemon.capture_live,
    {
        Config { socket: None, list: ListConfig::default(), daemon: DaemonConfig::default() }
    }
}

} // verus!
