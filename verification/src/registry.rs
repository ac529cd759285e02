//! The token registry: one token for each pair of group name and scope name,
//! and the groups with their switches.

use vstd::prelude::*;

verus! {

/// The token that stands for no instrumentation point.
pub const NO_TOKEN: u64 = 0;

/// A named category of instrumentation points.
pub struct Group {
    name: String,
    color: u32,
    enabled: bool,
}

/// One instrumentation point.
pub struct Timer {
    group: usize,
    name: String,
    color: u32,
}

/// The registry of groups and instrumentation points. The token of a point is
/// one more than its index, so tokens are handed out in order and none is
/// used twice.
pub struct Registry {
    groups: Vec<Group>,
    timers: Vec<Timer>,
    enable_new: bool,
}

/// A group as a mathematical value.
pub struct GroupView {
    pub name: Seq<char>,
    pub color: u32,
    pub enabled: bool,
}

/// An instrumentation point as a mathematical value.
pub struct TimerView {
    pub group: int,
    pub name: Seq<char>,
    pub color: u32,
}

/// A registry as a mathematical value.
pub struct RegistryView {
    pub groups: Seq<GroupView>,
    pub timers: Seq<TimerView>,
    /// Whether a group that is created now starts enabled.
    pub enable_new: bool,
}

/// The least index from `from` on of a group called `name`, or `-1`.
pub open spec fn find_group(groups: Seq<GroupView>, name: Seq<char>, from: int) -> int
    decreases groups.len() - from,
{
    if from < 0 || from >= groups.len() {
        -1
    } else if groups[from].name == name {
        from
    } else {
        find_group(groups, name, from + 1)
    }
}

impl RegistryView {
    /// The registry without groups and points.
    pub open spec fn empty(enable_new: bool) -> RegistryView {
        RegistryView { groups: Seq::empty(), timers: Seq::empty(), enable_new }
    }

    /// Whether the point at index `i` is the one called `name` in the group
    /// called `group`.
    pub open spec fn names(self, i: int, group: Seq<char>, name: Seq<char>) -> bool {
        self.timers[i].name == name && self.groups[self.timers[i].group].name == group
    }

    /// The least index from `from` on of the point with these names, or `-1`.
    pub open spec fn find_timer(self, group: Seq<char>, name: Seq<char>, from: int) -> int
        decreases self.timers.len() - from,
    {
        if from < 0 || from >= self.timers.len() {
            -1
        } else if self.names(from, group, name) {
            from
        } else {
            self.find_timer(group, name, from + 1)
        }
    }

    /// The token of the point with these names, `NO_TOKEN` if there is none.
    pub open spec fn token_of(self, group: Seq<char>, name: Seq<char>) -> u64 {
        (self.find_timer(group, name, 0) + 1) as u64
    }

    /// Whether `token` stands for a point of this registry.
    pub open spec fn knows(self, token: u64) -> bool {
        1 <= token <= self.timers.len()
    }

    /// Whether `token` stands for a point whose group is enabled.
    pub open spec fn records(self, token: u64) -> bool {
        self.knows(token) && self.groups[self.timers[token - 1].group].enabled
    }

    /// The name of the group of `token`'s point.
    pub open spec fn group_name(self, token: u64) -> Seq<char> {
        self.groups[self.timers[token - 1].group].name
    }

    /// The name of `token`'s point.
    pub open spec fn scope_name(self, token: u64) -> Seq<char> {
        self.timers[token - 1].name
    }

    /// The color of the group of `token`'s point: that of the request that
    /// made the group.
    pub open spec fn group_color(self, token: u64) -> u32 {
        self.groups[self.timers[token - 1].group].color
    }

    /// The color of `token`'s point: that of the request that made it.
    pub open spec fn scope_color(self, token: u64) -> u32 {
        self.timers[token - 1].color
    }

    /// Whether the groups are switched on. There is one switch for all of
    /// them, those that exist and those still to come.
    pub open spec fn switched_on(self) -> bool {
        self.enable_new
    }

    /// Every point lies in a group, no two groups share a name, no two
    /// points share both names, and every group stands as the one switch
    /// says.
    pub open spec fn wf(self) -> bool {
        &&& self.timers.len() <= u64::MAX
        &&& forall|i: int|
            0 <= i < self.groups.len() ==> (#[trigger] self.groups[i]).enabled == self.enable_new
        &&& forall|i: int|
            0 <= i < self.timers.len() ==> 0 <= (#[trigger] self.timers[i]).group
                < self.groups.len()
        &&& forall|i: int, j: int|
            0 <= i < j < self.groups.len() ==> (#[trigger] self.groups[i]).name != (
            #[trigger] self.groups[j]).name
        &&& forall|i: int, j: int|
            0 <= i < j < self.timers.len() ==> !((#[trigger] self.timers[i]).name == (
            #[trigger] self.timers[j]).name && self.timers[i].group == self.timers[j].group)
    }

    /// The registry after a request for the token of (`group`, `name`), and
    /// the token. A pair that is known keeps its token and changes nothing. A
    /// new pair gets the next token; its group is created if it is new too,
    /// with the color of this request and the switch that new groups get.
    pub open spec fn register(self, group: Seq<char>, name: Seq<char>, color: u32) -> (
        RegistryView,
        u64,
    ) {
        let t = self.find_timer(group, name, 0);
        if t >= 0 {
            (self, (t + 1) as u64)
        } else {
            let g = find_group(self.groups, group, 0);
            let groups = if g >= 0 {
                self.groups
            } else {
                self.groups.push(GroupView { name: group, color, enabled: self.enable_new })
            };
            let g2 = if g >= 0 {
                g
            } else {
                self.groups.len() as int
            };
            (
                RegistryView {
                    groups,
                    timers: self.timers.push(TimerView { group: g2, name, color }),
                    ..self
                },
                (self.timers.len() + 1) as u64,
            )
        }
    }

    /// The registry after all groups, and those still to come, are switched
    /// to `on`.
    pub open spec fn set_enable_all(self, on: bool) -> RegistryView {
        RegistryView {
            groups: Seq::new(
                self.groups.len(),
                |i: int| GroupView { enabled: on, ..self.groups[i] },
            ),
            timers: self.timers,
            enable_new: on,
        }
    }
}

/// What `find_group` returns is a group of that name, and no group before it
/// has the name.
pub proof fn lemma_find_group(groups: Seq<GroupView>, name: Seq<char>, from: int)
    requires
        0 <= from,
    ensures
        ({
            let r = find_group(groups, name, from);
            &&& r == -1 || (from <= r < groups.len() && groups[r].name == name)
            &&& forall|j: int|
                from <= j < groups.len() && (r == -1 || j < r) ==> (#[trigger] groups[j]).name
                    != name
        }),
    decreases groups.len() - from,
{
    if from < groups.len() && groups[from].name != name {
        lemma_find_group(groups, name, from + 1);
    }
}

/// What `find_timer` returns is a point with these names, and no point
/// before it has them.
pub proof fn lemma_find_timer(r: RegistryView, group: Seq<char>, name: Seq<char>, from: int)
    requires
        0 <= from,
    ensures
        ({
            let t = r.find_timer(group, name, from);
            &&& t == -1 || (from <= t < r.timers.len() && r.names(t, group, name))
            &&& forall|j: int|
                from <= j < r.timers.len() && (t == -1 || j < t) ==> !#[trigger] r.names(
                    j,
                    group,
                    name,
                )
        }),
    decreases r.timers.len() - from,
{
    if from < r.timers.len() && !r.names(from, group, name) {
        lemma_find_timer(r, group, name, from + 1);
    }
}

/// A search gives the same answer in a registry that has grown, if it found
/// something before: the points that were there keep their names.
proof fn lemma_find_timer_grown(
    r: RegistryView,
    r2: RegistryView,
    group: Seq<char>,
    name: Seq<char>,
    from: int,
)
    requires
        0 <= from,
        r.wf(),
        r.timers.len() <= r2.timers.len(),
        r.groups.len() <= r2.groups.len(),
        forall|i: int| 0 <= i < r.timers.len() ==> (#[trigger] r2.timers[i]) == r.timers[i],
        forall|i: int|
            0 <= i < r.groups.len() ==> (#[trigger] r2.groups[i]).name == r.groups[i].name,
        r.find_timer(group, name, from) >= 0,
    ensures
        r2.find_timer(group, name, from) == r.find_timer(group, name, from),
    decreases r.timers.len() - from,
{
    assert(from < r.timers.len());
    assert(r2.timers[from] == r.timers[from]);
    assert(0 <= r.timers[from].group < r.groups.len());
    assert(r2.groups[r.timers[from].group].name == r.groups[r.timers[from].group].name);
    if !r.names(from, group, name) {
        lemma_find_timer_grown(r, r2, group, name, from + 1);
    }
}

/// A request keeps the registry well formed, and the token it returns is the
/// token of the pair from then on.
pub proof fn lemma_register_wf(r: RegistryView, group: Seq<char>, name: Seq<char>, color: u32)
    requires
        r.wf(),
        r.find_timer(group, name, 0) >= 0 || r.timers.len() < u64::MAX,
    ensures
        r.register(group, name, color).0.wf(),
        r.register(group, name, color).1 != NO_TOKEN,
        r.register(group, name, color).0.knows(r.register(group, name, color).1),
        r.register(group, name, color).0.token_of(group, name) == r.register(group, name, color).1,
        r.register(group, name, color).0.group_name(r.register(group, name, color).1) == group,
        r.register(group, name, color).0.scope_name(r.register(group, name, color).1) == name,
{
    let (r2, token) = r.register(group, name, color);
    lemma_find_timer(r, group, name, 0);
    lemma_find_group(r.groups, group, 0);
    let t = r.find_timer(group, name, 0);
    if t < 0 {
        let g = find_group(r.groups, group, 0);
        let n = r.timers.len() as int;
        assert(r2.timers[n].name == name);
        assert(r2.groups[r2.timers[n].group].name == group);
        assert forall|i: int, j: int| 0 <= i < j < r2.timers.len() implies !((
        #[trigger] r2.timers[i]).name == (#[trigger] r2.timers[j]).name && r2.timers[i].group
            == r2.timers[j].group) by {
            if j == n {
                assert(!r.names(i, group, name));
                assert(r2.timers[i] == r.timers[i]);
                assert(0 <= r.timers[i].group < r.groups.len());
            }
        }
        assert forall|i: int, j: int| 0 <= i < j < r2.groups.len() implies (
        #[trigger] r2.groups[i]).name != (#[trigger] r2.groups[j]).name by {
            if j == r.groups.len() {
                assert(r.groups[i].name != group);
            }
        }
        assert forall|i: int| 0 <= i < r2.timers.len() implies 0 <= (#[trigger] r2.timers[i]).group
            < r2.groups.len() by {
            if i < n {
                assert(0 <= r.timers[i].group < r.groups.len());
            }
        }
        lemma_find_new_timer(r, r2, group, name, 0);
    }
}

/// In a registry that has just grown by the point (`group`, `name`), which
/// was not there before, the search finds the new point.
proof fn lemma_find_new_timer(
    r: RegistryView,
    r2: RegistryView,
    group: Seq<char>,
    name: Seq<char>,
    from: int,
)
    requires
        0 <= from <= r.timers.len(),
        r.wf(),
        r2.timers.len() == r.timers.len() + 1,
        r.groups.len() <= r2.groups.len(),
        forall|i: int| 0 <= i < r.timers.len() ==> (#[trigger] r2.timers[i]) == r.timers[i],
        forall|i: int|
            0 <= i < r.groups.len() ==> (#[trigger] r2.groups[i]).name == r.groups[i].name,
        r.find_timer(group, name, from) == -1,
        r2.names(r.timers.len() as int, group, name),
    ensures
        r2.find_timer(group, name, from) == r.timers.len(),
    decreases r.timers.len() - from,
{
    if from < r.timers.len() {
        assert(r2.timers[from] == r.timers[from]);
        assert(0 <= r.timers[from].group < r.groups.len());
        assert(r2.groups[r.timers[from].group].name == r.groups[r.timers[from].group].name);
        lemma_find_new_timer(r, r2, group, name, from + 1);
    }
}

/// One switch. A token's events are recorded if and only if the token is
/// known and the groups are switched on.
pub proof fn lemma_one_switch(r: RegistryView, token: u64)
    requires
        r.wf(),
    ensures
        r.records(token) == (r.knows(token) && r.switched_on()),
{
    if r.knows(token) {
        assert(0 <= r.timers[token - 1].group < r.groups.len());
    }
}

/// Token idempotence. A second request for the same pair, whatever its
/// color, returns the token of the first and changes nothing.
pub proof fn lemma_register_idempotent(
    r: RegistryView,
    group: Seq<char>,
    name: Seq<char>,
    color: u32,
    again: u32,
)
    requires
        r.wf(),
        r.timers.len() < u64::MAX,
    ensures
        ({
            let (r1, first) = r.register(group, name, color);
            r1.register(group, name, again) == (r1, first)
        }),
{
    lemma_register_wf(r, group, name, color);
    lemma_find_timer(r.register(group, name, color).0, group, name, 0);
}

/// A request for one pair leaves the token of every pair that had one as it
/// was.
pub proof fn lemma_register_keeps_tokens(
    r: RegistryView,
    group: Seq<char>,
    name: Seq<char>,
    color: u32,
    other_group: Seq<char>,
    other_name: Seq<char>,
)
    requires
        r.wf(),
        r.token_of(other_group, other_name) != NO_TOKEN,
    ensures
        r.register(group, name, color).0.token_of(other_group, other_name) == r.token_of(
            other_group,
            other_name,
        ),
{
    let r2 = r.register(group, name, color).0;
    lemma_find_timer(r, other_group, other_name, 0);
    if r.find_timer(group, name, 0) < 0 {
        lemma_find_timer_grown(r, r2, other_group, other_name, 0);
    }
}

/// Two pairs that differ in either name never share a token.
pub proof fn lemma_tokens_distinct(
    r: RegistryView,
    group: Seq<char>,
    name: Seq<char>,
    other_group: Seq<char>,
    other_name: Seq<char>,
)
    requires
        r.timers.len() <= u64::MAX,
        r.token_of(group, name) != NO_TOKEN,
        r.token_of(other_group, other_name) != NO_TOKEN,
        group != other_group || name != other_name,
    ensures
        r.token_of(group, name) != r.token_of(other_group, other_name),
{
    lemma_find_timer(r, group, name, 0);
    lemma_find_timer(r, other_group, other_name, 0);
}

impl View for Registry {
    type V = RegistryView;

    closed spec fn view(&self) -> RegistryView {
        RegistryView {
            groups: Seq::new(
                self.groups@.len(),
                |i: int|
                    GroupView {
                        name: self.groups@[i].name@,
                        color: self.groups@[i].color,
                        enabled: self.groups@[i].enabled,
                    },
            ),
            timers: Seq::new(
                self.timers@.len(),
                |i: int|
                    TimerView {
                        group: self.timers@[i].group as int,
                        name: self.timers@[i].name@,
                        color: self.timers@[i].color,
                    },
            ),
            enable_new: self.enable_new,
        }
    }
}

impl Registry {
    /// An empty registry whose groups will start with the switch `enable_new`.
    pub fn new(enable_new: bool) -> (r: Registry)
        ensures
            r@ == RegistryView::empty(enable_new),
            r@.wf(),
    {
        let r = Registry { groups: Vec::new(), timers: Vec::new(), enable_new };
        assert(r@.groups =~= Seq::empty());
        assert(r@.timers =~= Seq::empty());
        r
    }

    /// The index of the group called `name`.
    fn find_group(&self, name: &String) -> (r: Option<usize>)
        ensures
            match r {
                Some(i) => find_group(self@.groups, name@, 0) == i,
                None => find_group(self@.groups, name@, 0) == -1,
            },
    {
        let mut i: usize = 0;
        while i < self.groups.len()
            invariant
                i <= self.groups.len(),
                find_group(self@.groups, name@, 0) == find_group(self@.groups, name@, i as int),
            decreases self.groups.len() - i,
        {
            if self.groups[i].name == *name {
                return Some(i);
            }
            i = i + 1;
        }
        None
    }

    /// The index of the point called `name` in the group called `group`.
    fn find_timer(&self, group: &String, name: &String) -> (r: Option<usize>)
        requires
            self@.wf(),
        ensures
            match r {
                Some(i) => self@.find_timer(group@, name@, 0) == i,
                None => self@.find_timer(group@, name@, 0) == -1,
            },
    {
        let mut i: usize = 0;
        while i < self.timers.len()
            invariant
                i <= self.timers.len(),
                self@.wf(),
                self@.find_timer(group@, name@, 0) == self@.find_timer(group@, name@, i as int),
            decreases self.timers.len() - i,
        {
            let t = &self.timers[i];
            assert(0 <= self@.timers[i as int].group < self@.groups.len());
            if t.name == *name && self.groups[t.group].name == *group {
                return Some(i);
            }
            i = i + 1;
        }
        None
    }

    /// The token of (`group`, `name`): the one it has, or the next free one
    /// if the pair is new, in which case the point is added, and its group
    /// too if no group of that name exists yet.
    pub fn get_token(&mut self, group: String, name: String, color: u32) -> (token: u64)
        requires
            old(self)@.wf(),
        ensures
            (final(self)@, token) == old(self)@.register(group@, name@, color),
            final(self)@.wf(),
            token != NO_TOKEN,
            final(self)@.token_of(group@, name@) == token,
    {
        let ghost before = self@;
        if let Some(i) = self.find_timer(&group, &name) {
            proof {
                lemma_find_timer(before, group@, name@, 0);
                lemma_register_wf(before, group@, name@, color);
                assert(i < self.timers.len());
            }
            return (i + 1) as u64;
        }
        let g: usize = match self.find_group(&group) {
            Some(g) => g,
            None => {
                self.groups.push(Group { name: group, color, enabled: self.enable_new });
                self.groups.len() - 1
            },
        };
        self.timers.push(Timer { group: g, name, color });
        let token: u64 = self.timers.len() as u64;
        proof {
            let after = before.register(group@, name@, color).0;
            assert(before.timers.len() + 1 == self.timers@.len());
            assert(self@.groups =~= after.groups);
            assert(self@.timers =~= after.timers);
            lemma_register_wf(before, group@, name@, color);
        }
        token
    }

    /// Whether `token` stands for a point of this registry.
    pub fn knows(&self, token: u64) -> (b: bool)
        ensures
            b == self@.knows(token),
    {
        1 <= token && token - 1 < self.timers.len() as u64
    }

    /// Whether events of `token` are to be recorded: the token is known and
    /// its group is enabled.
    pub fn records(&self, token: u64) -> (b: bool)
        requires
            self@.wf(),
        ensures
            b == self@.records(token),
    {
        if token < 1 || token - 1 >= self.timers.len() as u64 {
            return false;
        }
        let i: usize = (token - 1) as usize;
        assert(0 <= self@.timers[i as int].group < self@.groups.len());
        self.groups[self.timers[i].group].enabled
    }

    /// The group name and scope name of a known token.
    pub fn names(&self, token: u64) -> (r: Option<(&String, &String)>)
        requires
            self@.wf(),
        ensures
            r is Some <==> self@.knows(token),
            r matches Some(p) ==> p.0@ == self@.group_name(token) && p.1@ == self@.scope_name(
                token,
            ),
    {
        if token < 1 || token - 1 >= self.timers.len() as u64 {
            return None;
        }
        let i: usize = (token - 1) as usize;
        assert(0 <= self@.timers[i as int].group < self@.groups.len());
        Some((&self.groups[self.timers[i].group].name, &self.timers[i].name))
    }

    /// The color of the group and the color of the scope of a known token.
    pub fn colors(&self, token: u64) -> (r: Option<(u32, u32)>)
        requires
            self@.wf(),
        ensures
            r is Some <==> self@.knows(token),
            r matches Some(p) ==> p.0 == self@.group_color(token) && p.1 == self@.scope_color(
                token,
            ),
    {
        if token < 1 || token - 1 >= self.timers.len() as u64 {
            return None;
        }
        let i: usize = (token - 1) as usize;
        assert(0 <= self@.timers[i as int].group < self@.groups.len());
        Some((self.groups[self.timers[i].group].color, self.timers[i].color))
    }

    /// Whether the groups are switched on.
    pub fn is_on(&self) -> (b: bool)
        ensures
            b == self@.switched_on(),
    {
        self.enable_new
    }

    /// Switches every group, and every group still to come, to `on`.
    pub fn set_enable_all(&mut self, on: bool)
        ensures
            final(self)@ == old(self)@.set_enable_all(on),
            old(self)@.wf() ==> final(self)@.wf(),
    {
        let ghost before = self@;
        self.enable_new = on;
        let mut i: usize = 0;
        while i < self.groups.len()
            invariant
                i <= self.groups.len(),
                self.enable_new == on,
                self.timers == old(self).timers,
                self.groups@.len() == old(self).groups@.len(),
                forall|j: int|
                    0 <= j < self.groups@.len() ==> (#[trigger] self.groups@[j]).name@
                        == old(self).groups@[j].name@ && self.groups@[j].color == old(
                        self,
                    ).groups@[j].color && self.groups@[j].enabled == (if j < i {
                        on
                    } else {
                        old(self).groups@[j].enabled
                    }),
            decreases self.groups.len() - i,
        {
            self.groups[i].enabled = on;
            i = i + 1;
        }
        assert(self@.groups =~= before.set_enable_all(on).groups);
        assert(self@.timers =~= before.set_enable_all(on).timers);
        proof {
            if before.wf() {
                let after = self@;
                assert forall|a: int, b: int| 0 <= a < b < after.groups.len() implies (
                #[trigger] after.groups[a]).name != (#[trigger] after.groups[b]).name by {
                    assert(before.groups[a].name != before.groups[b].name);
                }
                assert forall|a: int| 0 <= a < after.timers.len() implies 0 <= (
                #[trigger] after.timers[a]).group < after.groups.len() by {
                    assert(0 <= before.timers[a].group < before.groups.len());
                }
                assert forall|a: int, b: int| 0 <= a < b < after.timers.len() implies !((
                #[trigger] after.timers[a]).name == (#[trigger] after.timers[b]).name
                    && after.timers[a].group == after.timers[b].group) by {
                    assert(!(before.timers[a].name == before.timers[b].name
                        && before.timers[a].group == before.timers[b].group));
                }
            }
        }
    }

    /// Forgets every group and point.
    pub fn clear(&mut self)
        ensures
            final(self)@ == RegistryView::empty(old(self)@.enable_new),
            final(self)@.wf(),
    {
        self.groups.clear();
        self.timers.clear();
        assert(self@.groups =~= Seq::empty());
        assert(self@.timers =~= Seq::empty());
    }
}

} // verus!
