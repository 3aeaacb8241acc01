//! The unit model: identifiers, configuration as produced by the unit-file
//! parser, dependency sets, and unit status.

use crate::services::Service;
use vstd::prelude::*;

verus! {

/// Stable identifier assigned when a unit enters the unit table.
pub type UnitId = u64;

/// Kind of a service's main process.
#[derive(Clone, Copy, PartialEq, Eq, Structural, Debug)]
pub enum ServiceType {
    Simple,
    Notify,
    OneShot,
}

/// Who may send readiness notifications for a service.
#[derive(Clone, Copy, PartialEq, Eq, Structural, Debug)]
pub enum NotifyKind {
    Main,
    Exec,
    All,
    Nobody,
}

/// A configured time limit, in milliseconds, or no limit at all.
#[derive(Clone, Copy, PartialEq, Eq, Structural, Debug)]
pub enum Timeout {
    Duration(u64),
    Infinity,
}

/// Names declared in a unit file's install section.
#[derive(Clone, Debug)]
pub struct InstallConfig {
    pub wanted_by: Vec<String>,
    pub required_by: Vec<String>,
}

/// Resolved dependency sets of a unit, as unit ids.
#[derive(Clone, Debug)]
pub struct Install {
    pub wants: Vec<UnitId>,
    pub requires: Vec<UnitId>,

    pub wanted_by: Vec<UnitId>,
    pub required_by: Vec<UnitId>,

    pub before: Vec<UnitId>,
    pub after: Vec<UnitId>,

    pub install_config: Option<InstallConfig>,
}

/// Declared (still name-based) dependencies of a unit, as parsed from its file.
#[derive(Clone, Debug)]
pub struct UnitConfig {
    pub filepath: String,

    pub wants: Vec<String>,
    pub requires: Vec<String>,
    pub before: Vec<String>,
    pub after: Vec<String>,
}

/// Parsed configuration of a service unit.
#[derive(Clone, Debug)]
pub struct ServiceConfig {
    pub keep_alive: bool,
    pub accept: bool,
    pub notifyaccess: NotifyKind,
    pub exec_cmd: String,
    pub stop: Vec<String>,
    pub startpre: Vec<String>,
    pub startpost: Vec<String>,
    pub stoppost: Vec<String>,
    pub srcv_type: ServiceType,
    pub sockets: Vec<String>,
    pub starttimeout: Option<Timeout>,
    pub stoptimeout: Option<Timeout>,
    pub generaltimeout: Option<Timeout>,
}

/// Where a listening endpoint lives.
#[derive(Clone, Debug)]
pub enum SocketKind {
    Unix(String),
    Inet(String, u16),
}

/// One listening endpoint of a socket unit; `fd` is the open descriptor once
/// the listener has been created.
#[derive(Clone, Debug)]
pub struct SocketConfig {
    pub kind: SocketKind,
    pub fd: Option<i32>,
}

/// Payload of a socket unit.
#[derive(Clone, Debug)]
pub struct Socket {
    pub name: String,
    pub sockets: Vec<SocketConfig>,
    pub services: Vec<String>,
}

/// Substate of a unit that has been started.
#[derive(Clone, Copy, PartialEq, Eq, Structural, Debug)]
pub enum StatusStarted {
    Running,
    WaitingForSocket,
}

/// Lifecycle status of a unit.
#[derive(Clone, Debug)]
pub enum UnitStatus {
    NeverStarted,
    Starting,
    Started(StatusStarted),
    Stopped,
    Failed(String),
}

impl UnitStatus {
    pub open spec fn spec_is_started(&self) -> bool {
        match self {
            UnitStatus::Started(_) => true,
            _ => false,
        }
    }

    /// The unit has reached a started substate.
    #[verifier::when_used_as_spec(spec_is_started)]
    pub fn is_started(&self) -> (r: bool)
        ensures
            r == self.spec_is_started(),
    {
        match self {
            UnitStatus::Started(_) => true,
            _ => false,
        }
    }

    pub open spec fn spec_is_stopped(&self) -> bool {
        match self {
            UnitStatus::Stopped => true,
            _ => false,
        }
    }

    /// The unit has been stopped after running.
    #[verifier::when_used_as_spec(spec_is_stopped)]
    pub fn is_stopped(&self) -> (r: bool)
        ensures
            r == self.spec_is_stopped(),
    {
        match self {
            UnitStatus::Stopped => true,
            _ => false,
        }
    }

    pub open spec fn spec_is_never_started(&self) -> bool {
        match self {
            UnitStatus::NeverStarted => true,
            _ => false,
        }
    }

    /// The unit has not been activated yet.
    #[verifier::when_used_as_spec(spec_is_never_started)]
    pub fn is_never_started(&self) -> (r: bool)
        ensures
            r == self.spec_is_never_started(),
    {
        match self {
            UnitStatus::NeverStarted => true,
            _ => false,
        }
    }

    pub open spec fn spec_is_running(&self) -> bool {
        match self {
            UnitStatus::Started(StatusStarted::Running) => true,
            _ => false,
        }
    }

    /// The unit's main work is running.
    #[verifier::when_used_as_spec(spec_is_running)]
    pub fn is_running(&self) -> (r: bool)
        ensures
            r == self.spec_is_running(),
    {
        match self {
            UnitStatus::Started(StatusStarted::Running) => true,
            _ => false,
        }
    }

    pub open spec fn spec_is_waiting_for_socket(&self) -> bool {
        match self {
            UnitStatus::Started(StatusStarted::WaitingForSocket) => true,
            _ => false,
        }
    }

    /// The unit defers its start until socket traffic arrives.
    #[verifier::when_used_as_spec(spec_is_waiting_for_socket)]
    pub fn is_waiting_for_socket(&self) -> (r: bool)
        ensures
            r == self.spec_is_waiting_for_socket(),
    {
        match self {
            UnitStatus::Started(StatusStarted::WaitingForSocket) => true,
            _ => false,
        }
    }
}

/// No element occurs twice.
pub open spec fn no_dup(s: Seq<UnitId>) -> bool {
    forall|i: int, j: int| 0 <= i < j < s.len() ==> s[i] != s[j]
}

/// Linear membership test on an id list.
pub fn contains_id(v: &Vec<UnitId>, x: UnitId) -> (r: bool)
    ensures
        r == v@.contains(x),
{
    let mut i: usize = 0;
    while i < v.len()
        invariant
            i <= v.len(),
            forall|j: int| 0 <= j < i ==> v@[j] != x,
        decreases v.len() - i,
    {
        if v[i] == x {
            return true;
        }
        i += 1;
    }
    false
}

/// Copy of an id list with every repeated element removed; membership is kept.
pub fn dedup_ids(v: &Vec<UnitId>) -> (r: Vec<UnitId>)
    ensures
        no_dup(r@),
        forall|x: UnitId| r@.contains(x) <==> v@.contains(x),
{
    let mut r: Vec<UnitId> = Vec::new();
    let mut i: usize = 0;
    while i < v.len()
        invariant
            i <= v.len(),
            no_dup(r@),
            forall|x: UnitId| r@.contains(x) <==> v@.subrange(0, i as int).contains(x),
        decreases v.len() - i,
    {
        let x = v[i];
        if !contains_id(&r, x) {
            let ghost old_r = r@;
            r.push(x);
            proof {
                assert forall|y: UnitId| r@.contains(y) implies v@.subrange(
                    0,
                    i + 1 as int,
                ).contains(y) by {
                    if y == x {
                        assert(v@.subrange(0, i + 1 as int)[i as int] == x);
                    } else {
                        assert(old_r.contains(y));
                        let k = choose|k: int| 0 <= k < old_r.len() && old_r[k] == y;
                        assert(v@.subrange(0, i as int).contains(y));
                        let m = choose|m: int|
                            0 <= m < i && v@.subrange(0, i as int)[m] == y;
                        assert(v@.subrange(0, i + 1 as int)[m] == y);
                    }
                }
                assert forall|y: UnitId|
                    v@.subrange(0, i + 1 as int).contains(y) implies r@.contains(y) by {
                    let m = choose|m: int|
                        0 <= m <= i && #[trigger] v@.subrange(0, i + 1 as int)[m] == y;
                    if m < i {
                        assert(v@.subrange(0, i as int)[m] == y);
                        assert(old_r.contains(y));
                        let k = choose|k: int| 0 <= k < old_r.len() && old_r[k] == y;
                        assert(r@[k] == y);
                    } else {
                        assert(r@[r@.len() - 1] == x);
                    }
                }
            }
        } else {
            proof {
                assert(v@.subrange(0, i as int).contains(x) || x == v@[i as int]);
                assert forall|y: UnitId|
                    v@.subrange(0, i + 1 as int).contains(y) implies r@.contains(y) by {
                    let m = choose|m: int|
                        0 <= m <= i && #[trigger] v@.subrange(0, i + 1 as int)[m] == y;
                    if m < i {
                        assert(v@.subrange(0, i as int)[m] == y);
                    } else {
                        assert(y == x);
                    }
                }
                assert forall|y: UnitId| r@.contains(y) implies v@.subrange(
                    0,
                    i + 1 as int,
                ).contains(y) by {
                    assert(v@.subrange(0, i as int).contains(y));
                    let m = choose|m: int| 0 <= m < i && v@.subrange(0, i as int)[m] == y;
                    assert(v@.subrange(0, i + 1 as int)[m] == y);
                }
            }
        }
        i += 1;
    }
    proof {
        assert(v@.subrange(0, v@.len() as int) =~= v@);
    }
    r
}

/// The part of `s` after the last occurrence of `c`; all of `s` if `c` does
/// not occur.
pub open spec fn suffix_after_last(s: Seq<char>, c: char) -> Seq<char>
    decreases s.len(),
{
    if s.len() == 0 {
        s
    } else if s.last() == c {
        Seq::empty()
    } else {
        suffix_after_last(s.drop_last(), c).push(s.last())
    }
}

/// The part of `s` before the last occurrence of `c`; all of `s` if `c` does
/// not occur.
pub open spec fn prefix_before_last(s: Seq<char>, c: char) -> Seq<char>
    decreases s.len(),
{
    if !s.contains(c) {
        s
    } else if s.last() == c {
        s.drop_last()
    } else {
        prefix_before_last(s.drop_last(), c)
    }
}

proof fn lemma_suffix_after_last_found(s: Seq<char>, c: char, k: int)
    requires
        0 <= k < s.len(),
        s[k] == c,
        forall|j: int| k < j < s.len() ==> s[j] != c,
    ensures
        suffix_after_last(s, c) =~= s.subrange(k + 1, s.len() as int),
    decreases s.len(),
{
    if k == s.len() - 1 {
        assert(s.last() == c);
    } else {
        assert(s.last() != c);
        let d = s.drop_last();
        assert(d =~= s.subrange(0, s.len() - 1));
        lemma_suffix_after_last_found(d, c, k);
        assert(suffix_after_last(s, c) =~= d.subrange(k + 1, d.len() as int).push(s.last()));
    }
}

proof fn lemma_suffix_after_last_none(s: Seq<char>, c: char)
    requires
        forall|j: int| 0 <= j < s.len() ==> s[j] != c,
    ensures
        suffix_after_last(s, c) =~= s,
    decreases s.len(),
{
    if s.len() > 0 {
        lemma_suffix_after_last_none(s.drop_last(), c);
    }
}

proof fn lemma_prefix_before_last_found(s: Seq<char>, c: char, k: int)
    requires
        0 <= k < s.len(),
        s[k] == c,
        forall|j: int| k < j < s.len() ==> s[j] != c,
    ensures
        prefix_before_last(s, c) =~= s.subrange(0, k),
    decreases s.len(),
{
    assert(s.contains(c));
    if k == s.len() - 1 {
        assert(s.last() == c);
        assert(s.drop_last() =~= s.subrange(0, k));
    } else {
        assert(s.last() != c);
        let d = s.drop_last();
        lemma_prefix_before_last_found(d, c, k);
        assert(d.subrange(0, k) =~= s.subrange(0, k));
    }
}

proof fn lemma_prefix_before_last_none(s: Seq<char>, c: char)
    requires
        forall|j: int| 0 <= j < s.len() ==> s[j] != c,
    ensures
        prefix_before_last(s, c) =~= s,
{
    if s.contains(c) {
        let i = choose|i: int| 0 <= i < s.len() && s[i] == c;
        assert(false);
    }
}

impl UnitConfig {
    /// The unit's name as every dependency field refers to it: the file name
    /// of its path, directories stripped.
    pub open spec fn spec_name(&self) -> Seq<char> {
        suffix_after_last(self.filepath@, '/')
    }

    /// The name shared by a socket and the service it activates: the unit
    /// name with the final extension stripped.
    pub open spec fn spec_name_without_suffix(&self) -> Seq<char> {
        prefix_before_last(self.spec_name(), '.')
    }

    pub fn name(&self) -> (r: String)
        ensures
            r@ == self.spec_name(),
    {
        let s: &str = self.filepath.as_str();
        let len = s.unicode_len();
        let mut i: usize = len;
        while i > 0
            invariant
                i <= len,
                len == s@.len(),
                s@ == self.filepath@,
                forall|j: int| i <= j < len ==> s@[j] != '/',
            decreases i,
        {
            let c = s.get_char(i - 1);
            if c == '/' {
                let r = s.substring_char(i, len);
                proof {
                    lemma_suffix_after_last_found(s@, '/', i - 1);
                }
                return r.to_owned();
            }
            i -= 1;
        }
        proof {
            lemma_suffix_after_last_none(s@, '/');
        }
        s.to_owned()
    }

    pub fn name_without_suffix(&self) -> (r: String)
        ensures
            r@ == self.spec_name_without_suffix(),
    {
        let name = self.name();
        let s: &str = name.as_str();
        let len = s.unicode_len();
        let mut i: usize = len;
        while i > 0
            invariant
                i <= len,
                len == s@.len(),
                s@ == self.spec_name(),
                forall|j: int| i <= j < len ==> s@[j] != '.',
            decreases i,
        {
            let c = s.get_char(i - 1);
            if c == '.' {
                let r = s.substring_char(0, i - 1);
                proof {
                    lemma_prefix_before_last_found(s@, '.', i - 1);
                }
                return r.to_owned();
            }
            i -= 1;
        }
        proof {
            lemma_prefix_before_last_none(s@, '.');
        }
        name
    }
}

/// Variant payload of a unit.  A `Target` carries nothing: it exists only to
/// order other units.
#[derive(Clone, Debug)]
pub enum UnitSpecialized {
    Socket(Socket),
    Service(Service),
    Target,
}

/// A supervised entity: its identity, parsed configuration, resolved
/// dependencies, and lifecycle status.
#[derive(Clone, Debug)]
pub struct Unit {
    pub id: UnitId,
    pub conf: UnitConfig,
    pub specialized: UnitSpecialized,
    pub install: Install,
    pub status: UnitStatus,
}

impl Unit {
    /// Remove every repeated id from the six dependency sets; nothing else
    /// changes.
    pub fn dedup_dependencies(&mut self)
        ensures
            no_dup(final(self).install.wants@),
            no_dup(final(self).install.requires@),
            no_dup(final(self).install.wanted_by@),
            no_dup(final(self).install.required_by@),
            no_dup(final(self).install.before@),
            no_dup(final(self).install.after@),
            forall|x: UnitId|
                final(self).install.wants@.contains(x) <==> old(self).install.wants@.contains(x),
            forall|x: UnitId|
                final(self).install.requires@.contains(x) <==> old(
                    self,
                ).install.requires@.contains(x),
            forall|x: UnitId|
                final(self).install.wanted_by@.contains(x) <==> old(
                    self,
                ).install.wanted_by@.contains(x),
            forall|x: UnitId|
                final(self).install.required_by@.contains(x) <==> old(
                    self,
                ).install.required_by@.contains(x),
            forall|x: UnitId|
                final(self).install.before@.contains(x) <==> old(self).install.before@.contains(x),
            forall|x: UnitId|
                final(self).install.after@.contains(x) <==> old(self).install.after@.contains(x),
            final(self).id == old(self).id,
            final(self).conf == old(self).conf,
            final(self).specialized == old(self).specialized,
            final(self).status == old(self).status,
            final(self).install.install_config == old(self).install.install_config,
    {
        self.install.wants = dedup_ids(&self.install.wants);
        self.install.requires = dedup_ids(&self.install.requires);
        self.install.wanted_by = dedup_ids(&self.install.wanted_by);
        self.install.required_by = dedup_ids(&self.install.required_by);
        self.install.before = dedup_ids(&self.install.before);
        self.install.after = dedup_ids(&self.install.after);
    }
}

/// The unit table: every admitted unit, in order of admission.
pub struct UnitTable {
    pub units: Vec<Unit>,
}

impl UnitTable {
    /// Well-formed: no two units share an id.
    pub open spec fn wf(&self) -> bool {
        forall|i: int, j: int|
            0 <= i < j < self.units@.len() ==> self.units@[i].id != self.units@[j].id
    }

    /// Some unit in the table has this id.
    pub open spec fn has_id(&self, id: UnitId) -> bool {
        exists|i: int| 0 <= i < self.units@.len() && self.units@[i].id == id
    }

    /// The index of the unit with this id.
    pub open spec fn idx_of(&self, id: UnitId) -> int {
        choose|i: int| 0 <= i < self.units@.len() && self.units@[i].id == id
    }

    /// The unit with this id.
    pub open spec fn unit_of(&self, id: UnitId) -> Unit {
        self.units@[self.idx_of(id)]
    }

    /// Some unit in the table is named `name`.
    pub open spec fn has_name(&self, name: Seq<char>) -> bool {
        exists|i: int| 0 <= i < self.units@.len() && self.units@[i].conf.spec_name() == name
    }

    /// The id of the unit named `name`.
    pub open spec fn id_of_name(&self, name: Seq<char>) -> UnitId {
        self.units@[choose|i: int|
            0 <= i < self.units@.len() && self.units@[i].conf.spec_name() == name].id
    }

    /// No two units share a name.
    pub open spec fn unique_names(&self) -> bool {
        forall|i: int, j: int|
            0 <= i < j < self.units@.len() ==> self.units@[i].conf.spec_name()
                != self.units@[j].conf.spec_name()
    }

    pub fn new() -> (r: UnitTable)
        ensures
            r.wf(),
            r.units@.len() == 0,
    {
        UnitTable { units: Vec::new() }
    }

    /// Look a unit up by id.
    pub fn get(&self, id: UnitId) -> (r: Option<&Unit>)
        requires
            self.wf(),
        ensures
            match r {
                Some(u) => self.has_id(id) && *u == self.unit_of(id) && u.id == id,
                None => !self.has_id(id),
            },
    {
        let mut i: usize = 0;
        while i < self.units.len()
            invariant
                i <= self.units@.len(),
                self.wf(),
                forall|j: int| 0 <= j < i ==> self.units@[j].id != id,
            decreases self.units@.len() - i,
        {
            if self.units[i].id == id {
                proof {
                    assert(self.has_id(id));
                    let k = self.idx_of(id);
                    assert(self.units@[k].id == id);
                    assert(k == i as int);
                }
                return Some(&self.units[i]);
            }
            i += 1;
        }
        None
    }

    /// Look a unit's table index up by its name.
    pub fn find_index_by_name(&self, name: &str) -> (r: Option<usize>)
        requires
            self.unique_names(),
        ensures
            match r {
                Some(i) => i < self.units@.len() && self.units@[i as int].conf.spec_name()
                    == name@ && self.has_name(name@) && self.id_of_name(name@)
                    == self.units@[i as int].id,
                None => !self.has_name(name@),
            },
    {
        let mut i: usize = 0;
        while i < self.units.len()
            invariant
                i <= self.units@.len(),
                self.unique_names(),
                forall|j: int| 0 <= j < i ==> self.units@[j].conf.spec_name() != name@,
            decreases self.units@.len() - i,
        {
            let n = self.units[i].conf.name();
            if str_eq(n.as_str(), name) {
                proof {
                    assert(self.units@[i as int].conf.spec_name() == name@);
                    assert(self.has_name(name@));
                    let k = choose|k: int|
                        0 <= k < self.units@.len() && self.units@[k].conf.spec_name() == name@;
                    assert(k == i as int);
                }
                return Some(i);
            }
            i += 1;
        }
        None
    }

    /// Look a unit's id up by its name.
    pub fn find_id_by_name(&self, name: &str) -> (r: Option<UnitId>)
        requires
            self.unique_names(),
        ensures
            match r {
                Some(id) => self.has_name(name@) && id == self.id_of_name(name@),
                None => !self.has_name(name@),
            },
    {
        match self.find_index_by_name(name) {
            Some(i) => Some(self.units[i].id),
            None => None,
        }
    }
}

/// Character-for-character string equality.
pub fn str_eq(a: &str, b: &str) -> (r: bool)
    ensures
        r == (a@ == b@),
{
    let la = a.unicode_len();
    let lb = b.unicode_len();
    if la != lb {
        return false;
    }
    let mut i: usize = 0;
    while i < la
        invariant
            i <= la,
            la == a@.len(),
            la == b@.len(),
            forall|j: int| 0 <= j < i ==> a@[j] == b@[j],
        decreases la - i,
    {
        if a.get_char(i) != b.get_char(i) {
            return false;
        }
        i += 1;
    }
    proof {
        assert(a@ =~= b@);
    }
    true
}

/// The unit at index `i` is a socket named `name`.
pub open spec fn is_sock_named(t: UnitTable, i: int, name: Seq<char>) -> bool {
    &&& 0 <= i < t.units@.len()
    &&& t.units@[i].specialized is Socket
    &&& (t.units@[i].specialized->Socket_0).name@ == name
}

/// Exactly one socket of the table is named `name`.
pub open spec fn unique_socket_named(t: UnitTable, name: Seq<char>) -> bool {
    exists|i: int|
        #![trigger is_sock_named(t, i, name)]
        is_sock_named(t, i, name) && (forall|j: int|
            #![trigger is_sock_named(t, j, name)]
            is_sock_named(t, j, name) ==> j == i)
}

/// The socket called `name`, provided exactly one socket carries that name.
pub fn find_sock_with_name<'a>(name: &str, sockets: &'a UnitTable) -> (r: Option<&'a Socket>)
    ensures
        match r {
            Some(s) => unique_socket_named(*sockets, name@) && exists|i: int|
                #![trigger is_sock_named(*sockets, i, name@)]
                is_sock_named(*sockets, i, name@) && *s == (
                sockets.units@[i].specialized->Socket_0),
            None => !unique_socket_named(*sockets, name@),
        },
{
    let mut found: Option<usize> = None;
    let n = sockets.units.len();
    let mut i: usize = 0;
    while i < n
        invariant
            i <= n,
            n == sockets.units@.len(),
            match found {
                Some(w) => w < i && is_sock_named(*sockets, w as int, name@) && forall|j: int|
                    0 <= j < i && #[trigger] is_sock_named(*sockets, j, name@) ==> j == w as int,
                None => forall|j: int|
                    0 <= j < i ==> !(#[trigger] is_sock_named(*sockets, j, name@)),
            },
        decreases n - i,
    {
        let hit = match &sockets.units[i].specialized {
            UnitSpecialized::Socket(sock) => str_eq(sock.name.as_str(), name),
            _ => false,
        };
        if hit {
            match found {
                Some(w) => {
                    proof {
                        assert(is_sock_named(*sockets, w as int, name@));
                        assert(is_sock_named(*sockets, i as int, name@));
                        if unique_socket_named(*sockets, name@) {
                            let c = choose|c: int|
                                #![trigger is_sock_named(*sockets, c, name@)]
                                is_sock_named(*sockets, c, name@) && (forall|j: int|
                                    #![trigger is_sock_named(*sockets, j, name@)]
                                    is_sock_named(*sockets, j, name@) ==> j == c);
                            assert(w as int == c);
                            assert(i as int == c);
                        }
                    }
                    return None;
                },
                None => {
                    found = Some(i);
                },
            }
        } else {
            proof {
                assert(!is_sock_named(*sockets, i as int, name@));
            }
        }
        i += 1;
    }
    match found {
        Some(w) => {
            proof {
                assert(is_sock_named(*sockets, w as int, name@));
            }
            match &sockets.units[w].specialized {
                UnitSpecialized::Socket(sock) => Some(sock),
                _ => {
                    proof {
                        assert(false);
                    }
                    vstd::pervasive::unreached()
                },
            }
        },
        None => {
            proof {
                if unique_socket_named(*sockets, name@) {
                    let c = choose|c: int|
                        #![trigger is_sock_named(*sockets, c, name@)]
                        is_sock_named(*sockets, c, name@) && (forall|j: int|
                            #![trigger is_sock_named(*sockets, j, name@)]
                            is_sock_named(*sockets, j, name@) ==> j == c);
                    assert(!is_sock_named(*sockets, c, name@));
                }
            }
            None
        },
    }
}

} // verus!
