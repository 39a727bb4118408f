//! Server configuration: the settings, their defaults, and the validation
//! rules a configuration must pass before it is used.
use vstd::prelude::*;

use crate::text::{decimal, has_prefix, is_blank, push_decimal, push_str, trim};

verus! {

/// The media families a share can publish.
#[derive(Debug, Clone, Copy, PartialEq, Eq, Hash, Structural)]
pub enum MediaCategory {
    Audio,
    Video,
    Image,
}

impl MediaCategory {
    /// Every category, in declaration order.
    pub fn all() -> (r: [MediaCategory; 3])
        ensures
            r@ == seq![MediaCategory::Audio, MediaCategory::Video, MediaCategory::Image],
    {
        let r = [MediaCategory::Audio, MediaCategory::Video, MediaCategory::Image];
        assert(r@ =~= seq![MediaCategory::Audio, MediaCategory::Video, MediaCategory::Image]);
        r
    }
}

/// An IPv4 address, most significant octet first.
#[derive(Debug, Clone, Copy, PartialEq, Eq, Hash, Structural)]
pub struct Ipv4Address {
    pub a: u8,
    pub b: u8,
    pub c: u8,
    pub d: u8,
}

/// The dotted-decimal text of an address (`Ipv4Addr`'s `Display`).
pub open spec fn ipv4_text(x: Ipv4Address) -> Seq<char> {
    decimal(x.a as nat) + "."@ + decimal(x.b as nat) + "."@ + decimal(x.c as nat) + "."@
        + decimal(x.d as nat)
}

/// Appends the dotted-decimal text of an address.
pub fn push_ipv4(out: &mut String, x: Ipv4Address)
    ensures
        final(out)@ == old(out)@ + ipv4_text(x),
{
    push_decimal(out, x.a as u64);
    push_str(out, ".");
    push_decimal(out, x.b as u64);
    push_str(out, ".");
    push_decimal(out, x.c as u64);
    push_str(out, ".");
    push_decimal(out, x.d as u64);
}

/// Network settings; changes take effect only after a restart.
#[derive(Debug, Clone, PartialEq, Eq, Structural)]
pub struct NetworkConfig {
    pub http_port: u16,
    pub interface: Option<Ipv4Address>,
    pub ssdp_max_age_seconds: u32,
}

/// Settings of the filesystem scanner.
#[derive(Debug, Clone, Copy, PartialEq, Eq, Structural)]
pub struct ScannerConfig {
    pub rescan_interval_seconds: u64,
    pub settle_time_seconds: u64,
    pub watch_filesystem: bool,
    pub recursive: bool,
    pub follow_symlinks: bool,
    pub include_hidden: bool,
}

/// One published directory tree.
#[derive(Debug, Clone)]
pub struct ShareConfig {
    pub name: String,
    /// The directory as written in the configuration.
    pub path: String,
    pub media: Vec<MediaCategory>,
}

/// The whole configuration file.
#[derive(Debug, Clone)]
pub struct Config {
    pub friendly_name: String,
    pub network: NetworkConfig,
    pub scanner: ScannerConfig,
    pub shares: Vec<ShareConfig>,
}

/// Why a configuration was rejected.
#[derive(Debug)]
pub enum ConfigError {
    /// The file could not be read; `message` is the operating system's report.
    Read { path: String, message: String },
    /// The file is not valid TOML for this schema; `message` is the parser's report.
    Parse { path: String, message: String },
    /// The settings break one of the rules of [`Config::validate`].
    Invalid(String),
}

impl Default for NetworkConfig {
    fn default() -> (r: Self)
        ensures
            r.http_port == 8201,
            r.interface is None,
            r.ssdp_max_age_seconds == 1800,
    {
        NetworkConfig { http_port: 8_201, interface: None, ssdp_max_age_seconds: 1_800 }
    }
}

impl Default for ScannerConfig {
    fn default() -> (r: Self)
        ensures
            r.rescan_interval_seconds == 300,
            r.settle_time_seconds == 30,
            r.watch_filesystem,
            r.recursive,
            !r.follow_symlinks,
            !r.include_hidden,
    {
        ScannerConfig {
            rescan_interval_seconds: 300,
            settle_time_seconds: 30,
            watch_filesystem: true,
            recursive: true,
            follow_symlinks: false,
            include_hidden: false,
        }
    }
}

/// The name a server announces when the configuration names none.
pub fn default_friendly_name() -> (r: String)
    ensures
        r@ == "JoeDLNA"@,
{
    String::from_str("JoeDLNA")
}

/// The categories a share publishes when its entry names none: all of them.
pub fn default_media_categories() -> (r: Vec<MediaCategory>)
    ensures
        r@ == seq![MediaCategory::Audio, MediaCategory::Video, MediaCategory::Image],
{
    let mut r = Vec::new();
    r.push(MediaCategory::Audio);
    r.push(MediaCategory::Video);
    r.push(MediaCategory::Image);
    r
}

// ---------------------------------------------------------------------------
// Validation
// ---------------------------------------------------------------------------

/// What the filesystem reported for a share's directory, in the order in which
/// validation asks: can its metadata be read, is it a directory, and what is
/// its canonical path.
#[derive(Debug, Clone)]
pub enum ShareRoot {
    /// The metadata could not be read; the text is the operating system's report.
    Unreadable(String),
    /// The path exists but is not a directory.
    NotDirectory,
    /// The directory could not be canonicalized; the text is the report.
    Unresolvable(String),
    /// The canonical absolute path of the directory.
    Resolved(String),
}

/// The Unicode lower-case mapping of a string (`str::to_lowercase`).
pub uninterp spec fn unicode_lowercase(s: Seq<char>) -> Seq<char>;

/// `str::to_lowercase` (full Unicode case mapping). What the mapping is on
/// each character is the Unicode tables' business and is not stated here;
/// the contract says only that the result is a function of the text.
#[verifier::external_body]
fn lowercase(s: &str) -> (r: String)
    ensures
        r@ == unicode_lowercase(s@),
{
    s.to_lowercase()
}

/// The `Debug` rendering of a string: quoted, with escapes (`format!("{:?}", s)`).
pub uninterp spec fn debug_quoted(s: Seq<char>) -> Seq<char>;

/// `<str as Debug>::fmt`, as `format!("{:?}", s)` renders it. The escaping
/// rules are std's and are not stated here; the contract says only that the
/// result is a function of the text.
#[verifier::external_body]
fn debug_string(s: &str) -> (r: String)
    ensures
        r@ == debug_quoted(s@),
{
    format!("{:?}", s)
}

/// Whether canonical path `p` lies at or below canonical path `base`
/// (`Path::starts_with` on canonical absolute paths: `/` contains every
/// absolute path, and otherwise `base` must be `p` itself or a prefix of it
/// followed by a separator).
pub open spec fn path_within(p: Seq<char>, base: Seq<char>) -> bool {
    ||| p == base
    ||| (base == seq!['/'] && p.len() > 0 && p[0] == '/')
    ||| has_prefix(p, base.push('/'))
}

/// Two canonical roots overlap when either lies within the other.
pub open spec fn roots_overlap(a: Seq<char>, b: Seq<char>) -> bool {
    path_within(a, b) || path_within(b, a)
}

fn path_within_exec(p: &Vec<char>, base: &Vec<char>) -> (r: bool)
    ensures
        r == path_within(p@, base@),
{
    if crate::text::chars_eq(p.as_slice(), base.as_slice()) {
        return true;
    }
    if base.len() == 1 && base[0] == '/' {
        assert(base@ == seq!['/']);
        proof {
            if has_prefix(p@, base@.push('/')) {
                assert(p@.take(2)[0] == p@[0]);
            }
        }
        return p.len() > 0 && p[0] == '/';
    }
    assert(base@ != seq!['/']);
    if p.len() <= base.len() {
        return false;
    }
    let mut i: usize = 0;
    while i < base.len()
        invariant
            i <= base@.len() < p@.len(),
            forall|j: int| 0 <= j < i ==> p@[j] == base@[j],
        decreases base@.len() - i,
    {
        if p[i] != base[i] {
            assert(p@.take(base@.len() as int + 1)[i as int] != base@.push('/')[i as int]);
            return false;
        }
        i = i + 1;
    }
    if p[base.len()] != '/' {
        assert(p@.take(base@.len() as int + 1)[base@.len() as int] != base@.push('/')[base@.len() as int]);
        return false;
    }
    assert(p@.take(base@.len() as int + 1) =~= base@.push('/'));
    true
}

/// Whether two canonical roots overlap.
pub fn paths_overlap(a: &str, b: &str) -> (r: bool)
    ensures
        r == roots_overlap(a@, b@),
{
    let av = crate::text::chars_of(a);
    let bv = crate::text::chars_of(b);
    path_within_exec(&av, &bv) || path_within_exec(&bv, &av)
}

/// Whether some category occurs twice in `m`.
pub open spec fn has_duplicate(m: Seq<MediaCategory>) -> bool {
    exists|i: int, j: int| 0 <= i < j < m.len() && m[i] == m[j]
}

fn media_has_duplicate(m: &Vec<MediaCategory>) -> (r: bool)
    ensures
        r == has_duplicate(m@),
{
    let mut i: usize = 0;
    while i < m.len()
        invariant
            i <= m@.len(),
            forall|a: int, b: int| 0 <= a < b < m@.len() && a < i ==> m@[a] != m@[b],
        decreases m@.len() - i,
    {
        let mut j: usize = i + 1;
        while j < m.len()
            invariant
                i < m@.len(),
                i + 1 <= j <= m@.len(),
                forall|a: int, b: int| 0 <= a < b < m@.len() && a < i ==> m@[a] != m@[b],
                forall|b: int| i < b < j ==> m@[i as int] != m@[b],
            decreases m@.len() - j,
        {
            if m[i] == m[j] {
                return true;
            }
            j = j + 1;
        }
        i = i + 1;
    }
    false
}

/// `"share " + {name:?}` followed by `rest`.
pub open spec fn share_message(name: Seq<char>, rest: Seq<char>) -> Seq<char> {
    "share "@ + debug_quoted(name) + rest
}

/// The first rule that share `i` breaks, given the shares before it passed:
/// a blank name, a name already used (ignoring case), no categories, a
/// repeated category, an unreadable path, a path that is not a directory, a
/// path that cannot be resolved, or a root that overlaps an earlier root.
pub open spec fn share_error(c: &Config, roots: Seq<ShareRoot>, i: int) -> Option<Seq<char>> {
    let share = c.shares@[i];
    let name = share.name@;
    if trim(name).len() == 0 {
        Some("share names must not be empty"@)
    } else if exists|j: int|
        0 <= j < i && unicode_lowercase(#[trigger] c.shares@[j].name@) == unicode_lowercase(name) {
        Some("share name "@ + debug_quoted(name) + " is duplicated"@)
    } else if share.media@.len() == 0 {
        Some(share_message(name, " must enable at least one media category"@))
    } else if has_duplicate(share.media@) {
        Some(share_message(name, " contains duplicate media categories"@))
    } else {
        match roots[i] {
            ShareRoot::Unreadable(e) => Some(
                share_message(name, " cannot be read at "@ + share.path@ + ": "@ + e@),
            ),
            ShareRoot::NotDirectory => Some(
                share_message(name, " is not a directory: "@ + share.path@),
            ),
            ShareRoot::Unresolvable(e) => Some(
                share_message(name, " cannot be resolved at "@ + share.path@ + ": "@ + e@),
            ),
            ShareRoot::Resolved(root) => match first_overlap(c, roots, i, root@) {
                Some(j) => Some(
                    "shares "@ + debug_quoted(name) + " and "@ + debug_quoted(
                        c.shares@[j].name@,
                    ) + " overlap at "@ + root@ + " and "@ + resolved_root(roots[j]) + "; overlapping shares expose duplicate files"@,
                ),
                None => None,
            },
        }
    }
}

/// The canonical path of a resolved root (empty for the others).
pub open spec fn resolved_root(r: ShareRoot) -> Seq<char> {
    match r {
        ShareRoot::Resolved(p) => p@,
        _ => Seq::empty(),
    }
}

/// The first share before `i` whose root overlaps `root`.
pub open spec fn first_overlap(c: &Config, roots: Seq<ShareRoot>, i: int, root: Seq<char>) -> Option<
    int,
>
    decreases i,
{
    if i <= 0 {
        None
    } else {
        match first_overlap(c, roots, i - 1, root) {
            Some(j) => Some(j),
            None => if roots_overlap(root, resolved_root(roots[i - 1])) {
                Some(i - 1)
            } else {
                None
            },
        }
    }
}

/// The first error among the first `n` shares.
pub open spec fn shares_error(c: &Config, roots: Seq<ShareRoot>, n: int) -> Option<Seq<char>>
    decreases n,
{
    if n <= 0 {
        None
    } else {
        match shares_error(c, roots, n - 1) {
            Some(e) => Some(e),
            None => share_error(c, roots, n - 1),
        }
    }
}

/// The message of the first rule the configuration breaks, checked in order:
/// the friendly name is blank or longer than 64 characters, there is no share,
/// a scanner interval is zero, the SSDP lifetime is under 60 seconds, or a
/// share breaks one of the rules of `share_error`.
pub open spec fn config_error(c: &Config, roots: Seq<ShareRoot>) -> Option<Seq<char>> {
    if trim(c.friendly_name@).len() == 0 {
        Some("friendly_name must not be empty"@)
    } else if c.friendly_name@.len() > 64 {
        Some("friendly_name must contain at most 64 characters"@)
    } else if c.shares@.len() == 0 {
        Some("at least one [[shares]] entry is required"@)
    } else if c.scanner.rescan_interval_seconds == 0 {
        Some("scanner.rescan_interval_seconds must be greater than zero"@)
    } else if c.scanner.settle_time_seconds == 0 {
        Some("scanner.settle_time_seconds must be greater than zero"@)
    } else if c.network.ssdp_max_age_seconds < 60 {
        Some("network.ssdp_max_age_seconds must be at least 60"@)
    } else {
        shares_error(c, roots, c.shares@.len() as int)
    }
}

impl Config {
    /// Checks the configuration against its rules. `roots[i]` is what the
    /// filesystem reports for `shares[i].path`. The result is `Ok` exactly when
    /// no rule is broken, and otherwise names the first broken rule.
    pub fn validate(&self, roots: &Vec<ShareRoot>) -> (r: Result<(), ConfigError>)
        requires
            roots@.len() == self.shares@.len(),
        ensures
            match config_error(self, roots@) {
                None => r is Ok,
                Some(msg) => r matches Err(ConfigError::Invalid(m)) && m@ == msg,
            },
    {
        if is_blank(self.friendly_name.as_str()) {
            return Err(ConfigError::Invalid(String::from_str("friendly_name must not be empty")));
        }
        if self.friendly_name.as_str().unicode_len() > 64 {
            return Err(
                ConfigError::Invalid(
                    String::from_str("friendly_name must contain at most 64 characters"),
                ),
            );
        }
        if self.shares.len() == 0 {
            return Err(
                ConfigError::Invalid(String::from_str("at least one [[shares]] entry is required")),
            );
        }
        if self.scanner.rescan_interval_seconds == 0 {
            return Err(
                ConfigError::Invalid(
                    String::from_str("scanner.rescan_interval_seconds must be greater than zero"),
                ),
            );
        }
        if self.scanner.settle_time_seconds == 0 {
            return Err(
                ConfigError::Invalid(
                    String::from_str("scanner.settle_time_seconds must be greater than zero"),
                ),
            );
        }
        if self.network.ssdp_max_age_seconds < 60 {
            return Err(
                ConfigError::Invalid(
                    String::from_str("network.ssdp_max_age_seconds must be at least 60"),
                ),
            );
        }
        let mut names: Vec<String> = Vec::new();
        let mut i: usize = 0;
        while i < self.shares.len()
            invariant
                roots@.len() == self.shares@.len(),
                i <= self.shares@.len(),
                names@.len() == i,
                forall|j: int|
                    0 <= j < i ==> (#[trigger] names@[j])@ == unicode_lowercase(
                        self.shares@[j].name@,
                    ),
                shares_error(self, roots@, i as int) is None,
                config_error(self, roots@) == shares_error(
                    self,
                    roots@,
                    self.shares@.len() as int,
                ),
            decreases self.shares@.len() - i,
        {
            let result = self.check_share(roots, &names, i);
            match result {
                Err(e) => {
                    proof {
                        lemma_shares_error_stops(self, roots@, i as int + 1, self.shares@.len() as int);
                    }
                    return Err(e);
                },
                Ok(lower) => {
                    names.push(lower);
                },
            }
            i = i + 1;
        }
        Ok(())
    }

    /// The checks of one share, given the lower-cased names of the shares
    /// before it.
    #[verifier::loop_isolation(false)]
    fn check_share(&self, roots: &Vec<ShareRoot>, names: &Vec<String>, i: usize) -> (r: Result<
        String,
        ConfigError,
    >)
        requires
            roots@.len() == self.shares@.len(),
            i < self.shares@.len(),
            names@.len() == i,
            forall|j: int|
                0 <= j < i ==> (#[trigger] names@[j])@ == unicode_lowercase(self.shares@[j].name@),
        ensures
            match share_error(self, roots@, i as int) {
                None => r matches Ok(l) && l@ == unicode_lowercase(self.shares@[i as int].name@),
                Some(msg) => r matches Err(ConfigError::Invalid(m)) && m@ == msg,
            },
    {
        let share = &self.shares[i];
        if is_blank(share.name.as_str()) {
            return Err(ConfigError::Invalid(String::from_str("share names must not be empty")));
        }
        let lower = lowercase(share.name.as_str());
        let mut j: usize = 0;
        while j < i
            invariant
                i < self.shares@.len(),
                names@.len() == i,
                j <= i,
                lower@ == unicode_lowercase(self.shares@[i as int].name@),
                forall|k: int|
                    0 <= k < i ==> (#[trigger] names@[k])@ == unicode_lowercase(
                        self.shares@[k].name@,
                    ),
                forall|k: int|
                    0 <= k < j ==> unicode_lowercase(#[trigger] self.shares@[k].name@)
                        != unicode_lowercase(self.shares@[i as int].name@),
            decreases i - j,
        {
            if crate::text::str_eq(names[j].as_str(), lower.as_str()) {
                let mut m = String::from_str("share name ");
                let q = debug_string(share.name.as_str());
                push_str(&mut m, q.as_str());
                push_str(&mut m, " is duplicated");
                proof {
                    assert(unicode_lowercase(self.shares@[j as int].name@) == unicode_lowercase(
                        self.shares@[i as int].name@,
                    ));
                    assert(exists|jj: int|
                        0 <= jj < i && unicode_lowercase(#[trigger] self.shares@[jj].name@)
                            == unicode_lowercase(self.shares@[i as int].name@));
                }
                return Err(ConfigError::Invalid(m));
            }
            j = j + 1;
        }
        if share.media.len() == 0 {
            return Err(
                ConfigError::Invalid(
                    share_text(share.name.as_str(), " must enable at least one media category"),
                ),
            );
        }
        if media_has_duplicate(&share.media) {
            return Err(
                ConfigError::Invalid(
                    share_text(share.name.as_str(), " contains duplicate media categories"),
                ),
            );
        }
        match &roots[i] {
            ShareRoot::Unreadable(e) => {
                let mut rest = String::from_str(" cannot be read at ");
                push_str(&mut rest, share.path.as_str());
                push_str(&mut rest, ": ");
                push_str(&mut rest, e.as_str());
                Err(ConfigError::Invalid(share_text(share.name.as_str(), rest.as_str())))
            },
            ShareRoot::NotDirectory => {
                let mut rest = String::from_str(" is not a directory: ");
                push_str(&mut rest, share.path.as_str());
                Err(ConfigError::Invalid(share_text(share.name.as_str(), rest.as_str())))
            },
            ShareRoot::Unresolvable(e) => {
                let mut rest = String::from_str(" cannot be resolved at ");
                push_str(&mut rest, share.path.as_str());
                push_str(&mut rest, ": ");
                push_str(&mut rest, e.as_str());
                Err(ConfigError::Invalid(share_text(share.name.as_str(), rest.as_str())))
            },
            ShareRoot::Resolved(root) => {
                let mut k: usize = 0;
                while k < i
                    invariant
                        roots@.len() == self.shares@.len(),
                        i < self.shares@.len(),
                        k <= i,
                        roots@[i as int] == ShareRoot::Resolved(*root),
                        first_overlap(self, roots@, k as int, root@) is None,
                    decreases i - k,
                {
                    let other = resolved_root_of(&roots[k]);
                    if paths_overlap(root.as_str(), other.as_str()) {
                        let mut m = String::from_str("shares ");
                        let q = debug_string(share.name.as_str());
                        push_str(&mut m, q.as_str());
                        push_str(&mut m, " and ");
                        let q2 = debug_string(self.shares[k].name.as_str());
                        push_str(&mut m, q2.as_str());
                        push_str(&mut m, " overlap at ");
                        push_str(&mut m, root.as_str());
                        push_str(&mut m, " and ");
                        push_str(&mut m, other.as_str());
                        push_str(&mut m, "; overlapping shares expose duplicate files");
                        proof {
                            lemma_first_overlap_stops(self, roots@, k as int + 1, i as int, root@);
                        }
                        return Err(ConfigError::Invalid(m));
                    }
                    k = k + 1;
                }
                Ok(lower)
            },
        }
    }

    /// The rescan period in seconds.
    pub fn rescan_interval(&self) -> (r: u64)
        ensures
            r == self.scanner.rescan_interval_seconds,
    {
        self.scanner.rescan_interval_seconds
    }

    /// How long a file must stay unmodified before it is published, in seconds.
    pub fn settle_time(&self) -> (r: u64)
        ensures
            r == self.scanner.settle_time_seconds,
    {
        self.scanner.settle_time_seconds
    }
}

fn resolved_root_of(r: &ShareRoot) -> (p: String)
    ensures
        p@ == resolved_root(*r),
{
    match r {
        ShareRoot::Resolved(p) => p.clone(),
        _ => String::new(),
    }
}

fn share_text(name: &str, rest: &str) -> (r: String)
    ensures
        r@ == share_message(name@, rest@),
{
    let mut m = String::from_str("share ");
    let q = debug_string(name);
    push_str(&mut m, q.as_str());
    push_str(&mut m, rest);
    m
}

proof fn lemma_shares_error_stops(c: &Config, roots: Seq<ShareRoot>, n: int, m: int)
    requires
        0 < n <= m,
        shares_error(c, roots, n) is Some,
    ensures
        shares_error(c, roots, m) == shares_error(c, roots, n),
    decreases m - n,
{
    if n < m {
        lemma_shares_error_stops(c, roots, n, m - 1);
    }
}

proof fn lemma_first_overlap_stops(
    c: &Config,
    roots: Seq<ShareRoot>,
    k: int,
    i: int,
    root: Seq<char>,
)
    requires
        0 < k <= i,
        first_overlap(c, roots, k, root) is Some,
    ensures
        first_overlap(c, roots, i, root) == first_overlap(c, roots, k, root),
    decreases i - k,
{
    if k < i {
        lemma_first_overlap_stops(c, roots, k, i - 1, root);
    }
}

} // verus!
