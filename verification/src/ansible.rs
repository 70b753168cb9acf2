//! The Ansible dynamic-inventory document builder.
//!
//! An [`Inventory`] accumulates user groups (each with variables and hosts)
//! plus the hosts and variables of the reserved `ungrouped` group, and renders
//! the whole document in the JSON shape the Ansible script-inventory contract
//! asks for: a `_meta.hostvars` map, an `all` group whose `children` list every
//! group (with `ungrouped` first), the `ungrouped` group, and one entry per
//! user group.

use vstd::prelude::*;

use crate::json::{
    escape_str, fields_text, json_field_views, json_view, lemma_fields_text_front,
    lemma_json_field_views,
    lemma_parse_jfields_round_trip, lemma_parse_jstring_round_trip, lemma_strip_prefix,
    parse_jfields, parse_jstring_body, quoted, strip_prefix, write_fields, write_quoted, Json,
    JsonVal,
};
use crate::strutil::str_eq;

verus! {

/// One user-defined group: its variables in insertion order and, once the
/// first host has been added, its hosts in insertion order.
pub struct Group {
    name: String,
    vars: Vec<(String, Json)>,
    hosts: Option<Vec<String>>,
}

/// The mathematical form of a [`Group`].
#[verifier::ext_equal]
pub struct GroupView {
    pub name: Seq<char>,
    pub vars: Seq<(Seq<char>, JsonVal)>,
    pub hosts: Option<Seq<Seq<char>>>,
}

impl View for Group {
    type V = GroupView;

    closed spec fn view(&self) -> GroupView {
        GroupView {
            name: self.name@,
            vars: json_field_views(self.vars@),
            hosts: match self.hosts {
                Option::None => Option::None,
                Option::Some(hs) => Option::Some(hs@.map_values(|h: String| h@)),
            },
        }
    }
}

/// An Ansible dynamic-inventory document under construction.
pub struct Inventory {
    groups: Vec<Group>,
    ungrouped_vars: Option<Vec<(String, Json)>>,
    ungrouped_hosts: Option<Vec<String>>,
}

/// The mathematical form of an [`Inventory`]: the user groups in creation
/// order, and the variables and hosts of the reserved `ungrouped` group
/// (each `None` until first touched, which keeps the corresponding JSON key
/// out of the document).
#[verifier::ext_equal]
pub struct InventoryView {
    pub groups: Seq<GroupView>,
    pub ungrouped_vars: Option<Seq<(Seq<char>, JsonVal)>>,
    pub ungrouped_hosts: Option<Seq<Seq<char>>>,
}

impl View for Inventory {
    type V = InventoryView;

    closed spec fn view(&self) -> InventoryView {
        InventoryView {
            groups: Seq::new(self.groups@.len(), |i: int| self.groups@[i]@),
            ungrouped_vars: match self.ungrouped_vars {
                Option::None => Option::None,
                Option::Some(vs) => Option::Some(json_field_views(vs@)),
            },
            ungrouped_hosts: match self.ungrouped_hosts {
                Option::None => Option::None,
                Option::Some(hs) => Option::Some(hs@.map_values(|h: String| h@)),
            },
        }
    }
}

/// Whether an association list holds no key twice.
pub open spec fn distinct_keys(m: Seq<(Seq<char>, JsonVal)>) -> bool {
    forall|p: int, q: int| 0 <= p < q < m.len() ==> m[p].0 != m[q].0
}

/// Whether `m` binds the key `k`.
pub open spec fn assoc_has(m: Seq<(Seq<char>, JsonVal)>, k: Seq<char>) -> bool {
    exists|i: int| 0 <= i < m.len() && m[i].0 == k
}

/// The index at which `m` binds `k`, when it does.
pub open spec fn assoc_index(m: Seq<(Seq<char>, JsonVal)>, k: Seq<char>) -> int {
    choose|i: int| 0 <= i < m.len() && m[i].0 == k
}

/// `m` with `k` bound to `v`: overwritten in place when present, appended
/// otherwise.
pub open spec fn set_assoc(
    m: Seq<(Seq<char>, JsonVal)>,
    k: Seq<char>,
    v: JsonVal,
) -> Seq<(Seq<char>, JsonVal)> {
    if assoc_has(m, k) {
        m.update(assoc_index(m, k), (k, v))
    } else {
        m.push((k, v))
    }
}

/// The elements of an optional list, empty when absent.
pub open spec fn opt_or_empty<T>(o: Option<Seq<T>>) -> Seq<T> {
    match o {
        Option::None => Seq::empty(),
        Option::Some(s) => s,
    }
}

impl InventoryView {
    /// The names of the user groups, in creation order.
    pub open spec fn group_names(self) -> Seq<Seq<char>> {
        self.groups.map_values(|g: GroupView| g.name)
    }

    /// What `all.children` holds: `ungrouped` first, then every user group in
    /// creation order.
    pub open spec fn children(self) -> Seq<Seq<char>> {
        seq!["ungrouped"@] + self.group_names()
    }

    /// Whether a user group of this name exists.
    pub open spec fn has_group(self, name: Seq<char>) -> bool {
        exists|i: int| 0 <= i < self.groups.len() && self.groups[i].name == name
    }

    /// The index of the user group of this name, when it exists.
    pub open spec fn group_index(self, name: Seq<char>) -> int {
        choose|i: int| 0 <= i < self.groups.len() && self.groups[i].name == name
    }

    /// Well-formedness: group names are unique, never a reserved name, and
    /// every variable list binds each key once.
    pub open spec fn wf(self) -> bool {
        &&& forall|i: int, j: int|
            0 <= i < j < self.groups.len() ==> self.groups[i].name != self.groups[j].name
        &&& forall|i: int|
            0 <= i < self.groups.len() ==> self.groups[i].name != "all"@
                && self.groups[i].name != "_meta"@ && self.groups[i].name != "ungrouped"@
        &&& forall|i: int| 0 <= i < self.groups.len() ==> distinct_keys(self.groups[i].vars)
        &&& distinct_keys(opt_or_empty(self.ungrouped_vars))
    }

    /// The document after `add_group(name)`: unchanged when the group already
    /// exists or is the reserved `ungrouped`, else one fresh empty group is
    /// appended.
    pub open spec fn spec_add_group(self, name: Seq<char>) -> InventoryView {
        if name == "ungrouped"@ || self.has_group(name) {
            self
        } else {
            InventoryView {
                groups: self.groups.push(
                    GroupView { name: name, vars: Seq::empty(), hosts: Option::None },
                ),
                ..self
            }
        }
    }

    /// The document after `add_group_var(name, key, value)`: the group is
    /// ensured to exist as by `spec_add_group`, then its `vars` bind `key` to
    /// `value`.
    pub open spec fn spec_add_group_var(
        self,
        name: Seq<char>,
        key: Seq<char>,
        value: JsonVal,
    ) -> InventoryView {
        if name == "ungrouped"@ {
            InventoryView {
                ungrouped_vars: Option::Some(
                    set_assoc(opt_or_empty(self.ungrouped_vars), key, value),
                ),
                ..self
            }
        } else {
            let base = self.spec_add_group(name);
            let gi = base.group_index(name);
            let g = base.groups[gi];
            InventoryView {
                groups: base.groups.update(
                    gi,
                    GroupView { vars: set_assoc(g.vars, key, value), ..g },
                ),
                ..base
            }
        }
    }

    /// The document after `add_host(group, host)`: the target group (the
    /// reserved `ungrouped` when absent) is ensured to exist, and `host` is
    /// appended to its hosts.
    pub open spec fn spec_add_host(self, group: Option<Seq<char>>, host: Seq<char>) -> InventoryView {
        let name = match group {
            Option::None => "ungrouped"@,
            Option::Some(g) => g,
        };
        if name == "ungrouped"@ {
            InventoryView {
                ungrouped_hosts: Option::Some(opt_or_empty(self.ungrouped_hosts).push(host)),
                ..self
            }
        } else {
            let base = self.spec_add_group(name);
            let gi = base.group_index(name);
            let g = base.groups[gi];
            InventoryView {
                groups: base.groups.update(
                    gi,
                    GroupView { hosts: Option::Some(opt_or_empty(g.hosts).push(host)), ..g },
                ),
                ..base
            }
        }
    }
}

/// Quoted group names, each preceded by a comma: what follows `"ungrouped"`
/// inside `all.children`.
pub open spec fn name_list_text(names: Seq<Seq<char>>) -> Seq<char>
    decreases names.len(),
{
    if names.len() == 0 {
        Seq::empty()
    } else {
        name_list_text(names.drop_last()) + seq![','] + quoted(names.last())
    }
}

/// Comma-separated quoted strings: the body of a JSON array of strings.
pub open spec fn strings_text(ss: Seq<Seq<char>>) -> Seq<char>
    decreases ss.len(),
{
    if ss.len() == 0 {
        Seq::empty()
    } else if ss.len() == 1 {
        quoted(ss[0])
    } else {
        strings_text(ss.drop_last()) + seq![','] + quoted(ss.last())
    }
}

/// The `,"vars":{...}` segment of the `ungrouped` group, absent until its
/// first variable is set.
pub open spec fn opt_vars_text(vs: Option<Seq<(Seq<char>, JsonVal)>>) -> Seq<char> {
    match vs {
        Option::None => Seq::empty(),
        Option::Some(m) => ",\"vars\":{"@ + fields_text(m) + "}"@,
    }
}

/// The `,"hosts":[...]` segment of a group, absent until its first host is
/// added.
pub open spec fn opt_hosts_text(hs: Option<Seq<Seq<char>>>) -> Seq<char> {
    match hs {
        Option::None => Seq::empty(),
        Option::Some(h) => ",\"hosts\":["@ + strings_text(h) + "]"@,
    }
}

/// The `,"name":{...}` segment of one user group.
pub open spec fn group_text(g: GroupView) -> Seq<char> {
    seq![','] + quoted(g.name) + ":{\"children\":[],\"vars\":{"@ + fields_text(g.vars) + "}"@
        + opt_hosts_text(g.hosts) + "}"@
}

/// The segments of all user groups, in creation order.
pub open spec fn groups_text(gs: Seq<GroupView>) -> Seq<char>
    decreases gs.len(),
{
    if gs.len() == 0 {
        Seq::empty()
    } else {
        groups_text(gs.drop_last()) + group_text(gs.last())
    }
}

/// The canonical JSON text of the whole document: `_meta` first, then `all`
/// with its children, then `ungrouped`, then the user groups in creation
/// order.
pub open spec fn doc_text(inv: InventoryView) -> Seq<char> {
    "{\"_meta\":{\"hostvars\":{}},\"all\":{\"children\":[\"ungrouped\""@ + name_list_text(
        inv.group_names(),
    ) + "]},\"ungrouped\":{\"children\":[]"@ + opt_vars_text(inv.ungrouped_vars) + opt_hosts_text(
        inv.ungrouped_hosts,
    ) + "}"@ + groups_text(inv.groups) + "}"@
}

/// Appends the comma-separated quoted strings of `ss` to `out`.
#[verifier::loop_isolation(false)]
fn write_strings(ss: &Vec<String>, out: &mut String)
    ensures
        final(out)@ == old(out)@ + strings_text(ss@.map_values(|h: String| h@)),
{
    let ghost dv = ss@.map_values(|h: String| h@);
    let mut i: usize = 0;
    while i < ss.len()
        invariant
            i <= ss.len(),
            out@ == old(out)@ + strings_text(dv.take(i as int)),
        decreases ss.len() - i,
    {
        if i > 0 {
            out.push(',');
        }
        write_quoted(ss[i].as_str(), out);
        proof {
            let next = dv.take(i as int + 1);
            assert(next.drop_last() =~= dv.take(i as int));
            assert(next.last() == ss@[i as int]@);
            assert(out@ =~= old(out)@ + strings_text(next));
        }
        i += 1;
    }
    proof {
        assert(dv.take(ss@.len() as int) =~= dv);
    }
}

/// Appends the `,"name":{...}` segment of one user group to `out`.
fn write_group(g: &Group, out: &mut String)
    ensures
        final(out)@ == old(out)@ + group_text(g@),
{
    out.push(',');
    write_quoted(g.name.as_str(), out);
    out.append(":{\"children\":[],\"vars\":{");
    write_fields(&g.vars, out);
    out.append("}");
    match &g.hosts {
        Some(hs) => {
            out.append(",\"hosts\":[");
            write_strings(hs, out);
            out.append("]");
        },
        None => {},
    }
    out.append("}");
    proof {
        assert(final(out)@ =~= old(out)@ + group_text(g@));
    }
}

/// The mathematical form of a fresh document: the minimum valid inventory.
pub open spec fn empty_doc() -> InventoryView {
    InventoryView {
        groups: Seq::empty(),
        ungrouped_vars: Option::None,
        ungrouped_hosts: Option::None,
    }
}

impl Inventory {
    /// A document in the minimum valid form: no user groups, no hosts, and
    /// nothing under `ungrouped` beyond its empty `children`.
    pub fn new() -> (r: Inventory)
        ensures
            r@ == empty_doc(),
            r@.wf(),
    {
        let r = Inventory { groups: Vec::new(), ungrouped_vars: None, ungrouped_hosts: None };
        proof {
            assert(r@ =~= empty_doc());
        }
        r
    }

    /// The index of the user group named `group`, when one exists.
    #[verifier::loop_isolation(false)]
    fn find_group(&self, group: &str) -> (i: usize)
        requires
            self@.has_group(group@),
        ensures
            i < self@.groups.len(),
            self@.groups[i as int].name == group@,
    {
        let mut i: usize = 0;
        while i < self.groups.len()
            invariant
                i <= self.groups.len(),
                self@.has_group(group@),
                self@.groups.len() == self.groups.len(),
                forall|k: int| 0 <= k < self.groups.len() ==> self@.groups[k] == self.groups@[k]@,
                forall|j: int| 0 <= j < i ==> self@.groups[j].name != group@,
            decreases self.groups.len() - i,
        {
            if str_eq(self.groups[i].name.as_str(), group) {
                return i;
            }
            i += 1;
        }
        proof {
            let w = choose|k: int| 0 <= k < self@.groups.len() && self@.groups[k].name == group@;
            assert(self@.groups[w].name == group@);
            assert(false);
        }
        0
    }

    /// Adds the group if it does not exist; an existing group, and the
    /// reserved `ungrouped`, are left exactly as they are.
    #[verifier::loop_isolation(false)]
    pub fn add_group(&mut self, group: &str)
        requires
            old(self)@.wf(),
            group@ != "all"@,
            group@ != "_meta"@,
        ensures
            final(self)@ == old(self)@.spec_add_group(group@),
            final(self)@.wf(),
    {
        if str_eq(group, "ungrouped") {
            return;
        }
        let mut i: usize = 0;
        while i < self.groups.len()
            invariant
                i <= self.groups.len(),
                self@.groups.len() == self.groups.len(),
                forall|k: int| 0 <= k < self.groups.len() ==> self@.groups[k] == self.groups@[k]@,
                forall|j: int| 0 <= j < i ==> self@.groups[j].name != group@,
            decreases self.groups.len() - i,
        {
            if str_eq(self.groups[i].name.as_str(), group) {
                proof {
                    assert(self@.groups[i as int].name == group@);
                    assert(self@.has_group(group@));
                }
                return;
            }
            i += 1;
        }
        proof {
            assert(!self@.has_group(group@));
        }
        let g = Group { name: String::from_str(group), vars: Vec::new(), hosts: None };
        proof {
            assert(g@ == (GroupView {
                name: group@,
                vars: Seq::<(Seq<char>, JsonVal)>::empty(),
                hosts: Option::None,
            })) by {
                assert(g@.vars =~= Seq::<(Seq<char>, JsonVal)>::empty());
            }
        }
        self.groups.push(g);
        proof {
            assert(self@ =~= old(self)@.spec_add_group(group@));
        }
    }

    /// Sets a group variable, overwriting any prior value for the key; adds
    /// the group first if it does not exist, preserving an existing group.
    pub fn add_group_var(&mut self, group: &str, key: &str, value: Json)
        requires
            old(self)@.wf(),
            group@ != "all"@,
            group@ != "_meta"@,
        ensures
            final(self)@ == old(self)@.spec_add_group_var(group@, key@, json_view(value)),
            final(self)@.wf(),
    {
        if str_eq(group, "ungrouped") {
            let ghost m0 = opt_or_empty(old(self)@.ungrouped_vars);
            if self.ungrouped_vars.is_none() {
                self.ungrouped_vars = Some(Vec::new());
            }
            match &mut self.ungrouped_vars {
                Some(vs) => {
                    proof {
                        assert(json_field_views(vs@) =~= m0);
                    }
                    set_var_in(vs, key, value);
                },
                None => {},
            }
            proof {
                assert(self@ =~= (InventoryView {
                    ungrouped_vars: Option::Some(set_assoc(m0, key@, json_view(value))),
                    ..old(self)@
                }));
            }
        } else {
            self.add_group(group);
            let ghost base = old(self)@.spec_add_group(group@);
            proof {
                if !old(self)@.has_group(group@) {
                    assert(base.groups[base.groups.len() - 1].name == group@);
                }
                assert(self@.has_group(group@));
            }
            let gi = self.find_group(group);
            proof {
                let spec_gi = base.group_index(group@);
                assert(base.groups[spec_gi].name == group@);
                if spec_gi != gi as int {
                    assert(false);
                }
            }
            set_var_in(&mut self.groups[gi].vars, key, value);
            proof {
                let g = base.groups[gi as int];
                let target = InventoryView {
                    groups: base.groups.update(
                        gi as int,
                        GroupView { vars: set_assoc(g.vars, key@, json_view(value)), ..g },
                    ),
                    ..base
                };
                assert forall|k: int| 0 <= k < self@.groups.len() implies self@.groups[k]
                    == target.groups[k] by {
                    if k == gi as int {
                        assert(self@.groups[k] =~= target.groups[k]);
                    }
                }
                assert(self@ =~= target);
            }
        }
    }

    /// Appends a host to the hosts of `group` (the reserved `ungrouped` when
    /// absent), adding the group first if it does not exist.
    pub fn add_host(&mut self, group: Option<&str>, host: &str)
        requires
            old(self)@.wf(),
            match group {
                Option::Some(g) => g@ != "all"@ && g@ != "_meta"@,
                Option::None => true,
            },
        ensures
            final(self)@ == old(self)@.spec_add_host(
                match group {
                    Option::Some(g) => Option::Some(g@),
                    Option::None => Option::None,
                },
                host@,
            ),
            final(self)@.wf(),
    {
        match group {
            None => {
                self.push_ungrouped_host(host);
            },
            Some(g) => {
                if str_eq(g, "ungrouped") {
                    self.push_ungrouped_host(host);
                } else {
                    self.add_group(g);
                    let ghost base = old(self)@.spec_add_group(g@);
                    proof {
                        if !old(self)@.has_group(g@) {
                            assert(base.groups[base.groups.len() - 1].name == g@);
                        }
                        assert(self@.has_group(g@));
                    }
                    let gi = self.find_group(g);
                    proof {
                        let spec_gi = base.group_index(g@);
                        assert(base.groups[spec_gi].name == g@);
                        if spec_gi != gi as int {
                            assert(false);
                        }
                    }
                    let ghost h0 = opt_or_empty(base.groups[gi as int].hosts);
                    if self.groups[gi].hosts.is_none() {
                        self.groups[gi].hosts = Some(Vec::new());
                    }
                    match &mut self.groups[gi].hosts {
                        Some(hs) => {
                            proof {
                                assert(hs@.map_values(|h: String| h@) =~= h0);
                            }
                            hs.push(String::from_str(host));
                            proof {
                                assert(hs@.map_values(|h: String| h@) =~= h0.push(host@));
                            }
                        },
                        None => {},
                    }
                    proof {
                        let gv = base.groups[gi as int];
                        let target = InventoryView {
                            groups: base.groups.update(
                                gi as int,
                                GroupView { hosts: Option::Some(h0.push(host@)), ..gv },
                            ),
                            ..base
                        };
                        assert forall|k: int| 0 <= k < self@.groups.len() implies self@.groups[k]
                            == target.groups[k] by {
                            if k == gi as int {
                                assert(self@.groups[k] =~= target.groups[k]);
                            }
                        }
                        assert(self@ =~= target);
                    }
                }
            },
        }
    }

    /// Renders the document as its canonical JSON text.
    #[verifier::loop_isolation(false)]
    pub fn to_string(&self) -> (r: String)
        ensures
            r@ == doc_text(self@),
    {
        let ghost names = self@.group_names();
        let mut out = String::new();
        out.append("{\"_meta\":{\"hostvars\":{}},\"all\":{\"children\":[\"ungrouped\"");
        let ghost head = out@;
        let mut i: usize = 0;
        while i < self.groups.len()
            invariant
                i <= self.groups.len(),
                out@ == head + name_list_text(names.take(i as int)),
            decreases self.groups.len() - i,
        {
            out.push(',');
            write_quoted(self.groups[i].name.as_str(), &mut out);
            proof {
                let next = names.take(i as int + 1);
                assert(next.drop_last() =~= names.take(i as int));
                assert(next.last() == self.groups@[i as int].name@);
                assert(out@ =~= head + name_list_text(next));
            }
            i += 1;
        }
        proof {
            assert(names.take(self.groups@.len() as int) =~= names);
        }
        out.append("]},\"ungrouped\":{\"children\":[]");
        match &self.ungrouped_vars {
            Some(vs) => {
                out.append(",\"vars\":{");
                write_fields(vs, &mut out);
                out.append("}");
            },
            None => {},
        }
        proof {
            assert(out@ =~= head + name_list_text(names) + "]},\"ungrouped\":{\"children\":[]"@
                + opt_vars_text(self@.ungrouped_vars));
        }
        match &self.ungrouped_hosts {
            Some(hs) => {
                out.append(",\"hosts\":[");
                write_strings(hs, &mut out);
                out.append("]");
            },
            None => {},
        }
        out.append("}");
        let ghost mid = out@;
        proof {
            assert(mid =~= head + name_list_text(names) + "]},\"ungrouped\":{\"children\":[]"@
                + opt_vars_text(self@.ungrouped_vars) + opt_hosts_text(self@.ungrouped_hosts)
                + "}"@);
        }
        let mut i: usize = 0;
        while i < self.groups.len()
            invariant
                i <= self.groups.len(),
                out@ == mid + groups_text(self@.groups.take(i as int)),
            decreases self.groups.len() - i,
        {
            write_group(&self.groups[i], &mut out);
            proof {
                let next = self@.groups.take(i as int + 1);
                assert(next.drop_last() =~= self@.groups.take(i as int));
                assert(next.last() == self.groups@[i as int]@);
                assert(out@ =~= mid + groups_text(next));
            }
            i += 1;
        }
        out.append("}");
        proof {
            assert(self@.groups.take(self.groups@.len() as int) =~= self@.groups);
            assert(out@ =~= doc_text(self@));
        }
        out
    }

    /// Applies one script-resolved row to the document: a row that resolved
    /// no host is skipped, otherwise the host joins the resolved group (the
    /// reserved `ungrouped` when none was resolved).
    pub fn apply_resolved_row(&mut self, group: Option<&str>, host: Option<&str>) -> (applied:
        bool)
        requires
            old(self)@.wf(),
            match group {
                Option::Some(g) => g@ != "all"@ && g@ != "_meta"@,
                Option::None => true,
            },
        ensures
            final(self)@.wf(),
            match host {
                Option::None => final(self)@ == old(self)@ && !applied,
                Option::Some(h) => applied && final(self)@ == old(self)@.spec_add_host(
                    match group {
                        Option::Some(g) => Option::Some(g@),
                        Option::None => Option::None,
                    },
                    h@,
                ),
            },
    {
        match host {
            None => false,
            Some(h) => {
                self.add_host(group, h);
                true
            },
        }
    }

    /// Appends a host to the reserved `ungrouped` group.
    fn push_ungrouped_host(&mut self, host: &str)
        ensures
            final(self)@ == (InventoryView {
                ungrouped_hosts: Option::Some(
                    opt_or_empty(old(self)@.ungrouped_hosts).push(host@),
                ),
                ..old(self)@
            }),
    {
        let ghost h0 = opt_or_empty(old(self)@.ungrouped_hosts);
        if self.ungrouped_hosts.is_none() {
            self.ungrouped_hosts = Some(Vec::new());
        }
        match &mut self.ungrouped_hosts {
            Some(hs) => {
                proof {
                    assert(hs@.map_values(|h: String| h@) =~= h0);
                }
                hs.push(String::from_str(host));
                proof {
                    assert(hs@.map_values(|h: String| h@) =~= h0.push(host@));
                }
            },
            None => {},
        }
        proof {
            assert(self@ =~= (InventoryView {
                ungrouped_hosts: Option::Some(h0.push(host@)),
                ..old(self)@
            }));
        }
    }
}

/// Binds `key` to `value` in a variable list: overwritten in place when the
/// key is present, appended otherwise.
#[verifier::loop_isolation(false)]
fn set_var_in(vs: &mut Vec<(String, Json)>, key: &str, value: Json)
    requires
        distinct_keys(json_field_views(old(vs)@)),
    ensures
        json_field_views(final(vs)@) == set_assoc(json_field_views(old(vs)@), key@, json_view(value)),
        distinct_keys(json_field_views(final(vs)@)),
{
    let ghost m0 = json_field_views(vs@);
    proof {
        lemma_json_field_views(vs@);
    }
    let n = vs.len();
    let mut i: usize = 0;
    let mut found: usize = n;
    while i < n
        invariant
            i <= n,
            found == n || (found < i && m0[found as int].0 == key@),
            found == n ==> forall|j: int| 0 <= j < i ==> m0[j].0 != key@,
        decreases n - i,
    {
        if found == n && str_eq(vs[i].0.as_str(), key) {
            found = i;
        }
        i += 1;
    }
    if found < n {
        proof {
            assert(assoc_has(m0, key@));
            let ai = assoc_index(m0, key@);
            assert(0 <= ai < m0.len() && m0[ai].0 == key@);
            if ai != found as int {
                assert(false);
            }
        }
        vs[found] = (String::from_str(key), value);
        proof {
            lemma_json_field_views(vs@);
            let m1 = json_field_views(vs@);
            assert(m1 =~= m0.update(found as int, (key@, json_view(value))));
            assert forall|p: int, q: int| 0 <= p < q < m1.len() implies m1[p].0 != m1[q].0 by {
                assert(m1[p].0 == m0[p].0);
                assert(m1[q].0 == m0[q].0);
            }
        }
    } else {
        vs.push((String::from_str(key), value));
        proof {
            lemma_json_field_views(vs@);
            let m1 = json_field_views(vs@);
            assert(!assoc_has(m0, key@));
            assert(m1 =~= m0.push((key@, json_view(value))));
            assert forall|p: int, q: int| 0 <= p < q < m1.len() implies m1[p].0 != m1[q].0 by {
                if q == m0.len() {
                    assert(m1[p].0 == m0[p].0);
                    assert(m1[q].0 == key@);
                } else {
                    assert(m1[p].0 == m0[p].0);
                    assert(m1[q].0 == m0[q].0);
                }
            }
        }
    }
}

/// Law: a fresh document serializes to exactly the minimum valid form of the
/// dynamic-inventory contract.
pub proof fn lemma_empty_doc_text()
    ensures
        doc_text(empty_doc())
            == "{\"_meta\":{\"hostvars\":{}},\"all\":{\"children\":[\"ungrouped\"]},\"ungrouped\":{\"children\":[]}}"@,
{
    reveal_strlit("{\"_meta\":{\"hostvars\":{}},\"all\":{\"children\":[\"ungrouped\"");
    reveal_strlit("]},\"ungrouped\":{\"children\":[]");
    reveal_strlit("}");
    reveal_strlit(
        "{\"_meta\":{\"hostvars\":{}},\"all\":{\"children\":[\"ungrouped\"]},\"ungrouped\":{\"children\":[]}}",
    );
    assert(empty_doc().group_names() =~= Seq::<Seq<char>>::empty());
    assert(name_list_text(empty_doc().group_names()) == Seq::<char>::empty());
    assert(groups_text(empty_doc().groups) == Seq::<char>::empty());
    assert(doc_text(empty_doc())
        =~= "{\"_meta\":{\"hostvars\":{}},\"all\":{\"children\":[\"ungrouped\"]},\"ungrouped\":{\"children\":[]}}"@);
}

/// The document after a whole sequence of `add_group` calls, first to last.
pub open spec fn spec_add_groups(inv: InventoryView, names: Seq<Seq<char>>) -> InventoryView
    decreases names.len(),
{
    if names.len() == 0 {
        inv
    } else {
        spec_add_groups(inv, names.drop_last()).spec_add_group(names.last())
    }
}

/// The distinct names of `names` in first-occurrence order, the reserved
/// `ungrouped` left out.
pub open spec fn first_occurrences(names: Seq<Seq<char>>) -> Seq<Seq<char>>
    decreases names.len(),
{
    if names.len() == 0 {
        Seq::empty()
    } else {
        let pre = first_occurrences(names.drop_last());
        if names.last() == "ungrouped"@ || pre.contains(names.last()) {
            pre
        } else {
            pre.push(names.last())
        }
    }
}

/// `spec_add_group` preserves well-formedness, never touches the `ungrouped`
/// data, and grows the group names exactly by one unseen name.
pub proof fn lemma_spec_add_group(inv: InventoryView, name: Seq<char>)
    requires
        inv.wf(),
        name != "all"@,
        name != "_meta"@,
    ensures
        inv.spec_add_group(name).wf(),
        inv.spec_add_group(name).ungrouped_vars == inv.ungrouped_vars,
        inv.spec_add_group(name).ungrouped_hosts == inv.ungrouped_hosts,
        inv.spec_add_group(name).group_names() == (if name == "ungrouped"@
            || inv.group_names().contains(name) {
            inv.group_names()
        } else {
            inv.group_names().push(name)
        }),
{
    let gn = inv.group_names();
    assert(gn.len() == inv.groups.len());
    if inv.has_group(name) {
        let w = choose|i: int| 0 <= i < inv.groups.len() && inv.groups[i].name == name;
        assert(gn[w] == name);
        assert(gn.contains(name));
    }
    if gn.contains(name) {
        let w = choose|i: int| 0 <= i < gn.len() && gn[i] == name;
        assert(inv.groups[w].name == name);
        assert(inv.has_group(name));
    }
    if name == "ungrouped"@ || inv.has_group(name) {
    } else {
        let post = inv.spec_add_group(name);
        assert(post.group_names() =~= gn.push(name));
        assert forall|i: int, j: int|
            0 <= i < j < post.groups.len() implies post.groups[i].name != post.groups[j].name by {
            if j == inv.groups.len() {
                assert(gn[i] == post.groups[i].name);
                assert(!gn.contains(name));
            }
        }
    }
}

/// Law: after any sequence of `add_group` calls on a fresh document, the
/// group names are exactly the distinct names added, in first-occurrence
/// order.
pub proof fn lemma_add_groups_names(names: Seq<Seq<char>>)
    requires
        forall|i: int| 0 <= i < names.len() ==> names[i] != "all"@ && names[i] != "_meta"@,
    ensures
        spec_add_groups(empty_doc(), names).wf(),
        spec_add_groups(empty_doc(), names).group_names() == first_occurrences(names),
    decreases names.len(),
{
    if names.len() == 0 {
        assert(empty_doc().group_names() =~= first_occurrences(names));
    } else {
        let dl = names.drop_last();
        assert(forall|i: int| 0 <= i < dl.len() ==> dl[i] == names[i]);
        lemma_add_groups_names(dl);
        let pre_doc = spec_add_groups(empty_doc(), dl);
        lemma_spec_add_group(pre_doc, names.last());
    }
}

/// `first_occurrences` holds no repeats, never the reserved `ungrouped`, and
/// exactly the other names that occur.
pub proof fn lemma_first_occurrences_distinct(names: Seq<Seq<char>>)
    ensures
        forall|p: int, q: int|
            0 <= p < q < first_occurrences(names).len() ==> first_occurrences(names)[p]
                != first_occurrences(names)[q],
        forall|x: Seq<char>|
            #[trigger] first_occurrences(names).contains(x) <==> (names.contains(x) && x
                != "ungrouped"@),
    decreases names.len(),
{
    let fo = first_occurrences(names);
    if names.len() == 0 {
        assert forall|x: Seq<char>|
            #[trigger] fo.contains(x) <==> (names.contains(x) && x != "ungrouped"@) by {
            if names.contains(x) {
                let w = choose|i: int| 0 <= i < names.len() && names[i] == x;
                assert(false);
            }
        }
    } else {
        let dl = names.drop_last();
        lemma_first_occurrences_distinct(dl);
        let pre = first_occurrences(dl);
        assert forall|p: int, q: int| 0 <= p < q < fo.len() implies fo[p] != fo[q] by {
            if !(names.last() == "ungrouped"@ || pre.contains(names.last())) && q == pre.len() {
                assert(fo[p] == pre[p]);
                assert(pre.contains(pre[p]));
            }
        }
        assert forall|x: Seq<char>|
            #[trigger] fo.contains(x) <==> (names.contains(x) && x != "ungrouped"@) by {
            if fo.contains(x) {
                let w = choose|i: int| 0 <= i < fo.len() && fo[i] == x;
                if w < pre.len() {
                    assert(pre[w] == x);
                    assert(pre.contains(x));
                    let v = choose|i: int| 0 <= i < dl.len() && dl[i] == x;
                    assert(names[v] == x);
                    assert(names.contains(x));
                } else {
                    assert(x == names.last());
                    assert(names.contains(x));
                }
            }
            if names.contains(x) && x != "ungrouped"@ {
                let w = choose|i: int| 0 <= i < names.len() && names[i] == x;
                if w < dl.len() {
                    assert(dl[w] == x);
                    assert(dl.contains(x));
                    assert(pre.contains(x));
                    let v = choose|i: int| 0 <= i < pre.len() && pre[i] == x;
                    assert(fo[v] == pre[v]);
                    assert(fo.contains(x));
                } else {
                    assert(x == names.last());
                    if pre.contains(x) {
                        let v = choose|i: int| 0 <= i < pre.len() && pre[i] == x;
                        assert(fo[v] == pre[v]);
                        assert(fo.contains(x));
                    } else {
                        assert(fo.last() == x);
                        assert(fo.contains(x));
                    }
                }
            }
        }
    }
}

/// Law: for every sequence of `add_group` calls on a fresh document, each
/// distinct added name appears in `all.children` exactly once, in
/// first-occurrence order, and `ungrouped` is always first.
pub proof fn lemma_add_groups_children(names: Seq<Seq<char>>)
    requires
        forall|i: int| 0 <= i < names.len() ==> names[i] != "all"@ && names[i] != "_meta"@,
    ensures
        spec_add_groups(empty_doc(), names).children() == seq!["ungrouped"@] + first_occurrences(
            names,
        ),
        spec_add_groups(empty_doc(), names).children()[0] == "ungrouped"@,
        forall|p: int, q: int|
            0 <= p < q < spec_add_groups(empty_doc(), names).children().len() ==> spec_add_groups(
                empty_doc(),
                names,
            ).children()[p] != spec_add_groups(empty_doc(), names).children()[q],
{
    lemma_add_groups_names(names);
    let doc = spec_add_groups(empty_doc(), names);
    let c = doc.children();
    assert(c == seq!["ungrouped"@] + first_occurrences(names));
    lemma_first_occurrences_distinct(names);
    let fo = first_occurrences(names);
    assert forall|p: int, q: int| 0 <= p < q < c.len() implies c[p] != c[q] by {
        if p == 0 {
            assert(c[q] == fo[q - 1]);
            assert(fo.contains(fo[q - 1]));
        } else {
            assert(c[p] == fo[p - 1]);
            assert(c[q] == fo[q - 1]);
        }
    }
}

/// The document with `key` bound to `value` in the vars of the group named
/// `name` (the reserved `ungrouped` included), and nothing else changed.
pub open spec fn spec_set_var(
    inv: InventoryView,
    name: Seq<char>,
    key: Seq<char>,
    value: JsonVal,
) -> InventoryView {
    if name == "ungrouped"@ {
        InventoryView {
            ungrouped_vars: Option::Some(set_assoc(opt_or_empty(inv.ungrouped_vars), key, value)),
            ..inv
        }
    } else {
        let gi = inv.group_index(name);
        let g = inv.groups[gi];
        InventoryView {
            groups: inv.groups.update(gi, GroupView { vars: set_assoc(g.vars, key, value), ..g }),
            ..inv
        }
    }
}

/// Law: `add_group_var` is exactly `add_group` followed by binding the key in
/// that group's vars; nothing else of the document changes.
pub proof fn lemma_add_group_var_decomposes(
    inv: InventoryView,
    name: Seq<char>,
    key: Seq<char>,
    value: JsonVal,
)
    ensures
        inv.spec_add_group_var(name, key, value) == spec_set_var(
            inv.spec_add_group(name),
            name,
            key,
            value,
        ),
{
    if name != "ungrouped"@ {
        assert(inv.spec_add_group_var(name, key, value) =~= spec_set_var(
            inv.spec_add_group(name),
            name,
            key,
            value,
        ));
    }
}

/// Binding the same key twice in a variable list keeps only the latest value.
pub proof fn lemma_set_assoc_latest_wins(
    m: Seq<(Seq<char>, JsonVal)>,
    k: Seq<char>,
    v1: JsonVal,
    v2: JsonVal,
)
    requires
        distinct_keys(m),
    ensures
        set_assoc(set_assoc(m, k, v1), k, v2) == set_assoc(m, k, v2),
{
    let m1 = set_assoc(m, k, v1);
    if assoc_has(m, k) {
        let ai = assoc_index(m, k);
        assert(0 <= ai < m.len() && m[ai].0 == k);
        assert(m1 == m.update(ai, (k, v1)));
        assert(m1[ai].0 == k);
        assert(assoc_has(m1, k));
        let bi = assoc_index(m1, k);
        assert(0 <= bi < m1.len() && m1[bi].0 == k);
        if bi != ai {
            assert(m1[bi].0 == m[bi].0);
            assert(false);
        }
        assert(set_assoc(m1, k, v2) =~= set_assoc(m, k, v2));
    } else {
        assert(m1 == m.push((k, v1)));
        assert(m1[m.len() as int].0 == k);
        assert(assoc_has(m1, k));
        let bi = assoc_index(m1, k);
        assert(0 <= bi < m1.len() && m1[bi].0 == k);
        if bi < m.len() {
            assert(m[bi].0 == k);
            assert(assoc_has(m, k));
            assert(false);
        }
        assert(set_assoc(m1, k, v2) =~= set_assoc(m, k, v2));
    }
}

/// Reads zero or more `,"name"` entries, up to (but not through) a closing
/// bracket.
pub open spec fn parse_names(t: Seq<char>) -> Option<(Seq<Seq<char>>, Seq<char>)>
    decreases t.len(),
{
    if t.len() >= 2 && t[0] == ',' && t[1] == '"' {
        match parse_jstring_body(t.skip(2)) {
            Option::Some((s, r)) => {
                if r.len() < t.len() {
                    match parse_names(r) {
                        Option::Some((ns, rest)) => Option::Some((seq![s] + ns, rest)),
                        Option::None => Option::None,
                    }
                } else {
                    Option::None
                }
            },
            Option::None => Option::None,
        }
    } else if t.len() >= 1 && t[0] == ']' {
        Option::Some((Seq::empty(), t))
    } else {
        Option::None
    }
}

/// Reads the comma-separated strings of a JSON string array, the closing
/// bracket included.
pub open spec fn parse_strings(t: Seq<char>) -> Option<(Seq<Seq<char>>, Seq<char>)>
    decreases t.len(),
{
    if t.len() >= 1 && t[0] == ']' {
        Option::Some((Seq::empty(), t.drop_first()))
    } else if t.len() >= 1 && t[0] == '"' {
        match parse_jstring_body(t.drop_first()) {
            Option::Some((s, r)) => {
                if r.len() < t.len() {
                    if r.len() >= 1 && r[0] == ',' {
                        match parse_strings(r.drop_first()) {
                            Option::Some((ss, rest)) => Option::Some((seq![s] + ss, rest)),
                            Option::None => Option::None,
                        }
                    } else if r.len() >= 1 && r[0] == ']' {
                        Option::Some((seq![s], r.drop_first()))
                    } else {
                        Option::None
                    }
                } else {
                    Option::None
                }
            },
            Option::None => Option::None,
        }
    } else {
        Option::None
    }
}

/// Reads a `,"vars":{...}` segment when one comes, and nothing otherwise.
pub open spec fn parse_opt_vars(t: Seq<char>) -> Option<
    (Option<Seq<(Seq<char>, JsonVal)>>, Seq<char>),
> {
    match strip_prefix(",\"vars\":{"@, t) {
        Option::Some(t1) => {
            if t1.len() >= 1 && t1[0] == '}' {
                Option::Some(
                    (Option::Some(Seq::<(Seq<char>, JsonVal)>::empty()), t1.drop_first()),
                )
            } else {
                match parse_jfields(t1) {
                    Option::Some((fs, rest)) => Option::Some((Option::Some(fs), rest)),
                    Option::None => Option::None,
                }
            }
        },
        Option::None => Option::Some((Option::None, t)),
    }
}

/// Reads a `,"hosts":[...]` segment when one comes, and nothing otherwise.
pub open spec fn parse_opt_hosts(t: Seq<char>) -> Option<(Option<Seq<Seq<char>>>, Seq<char>)> {
    match strip_prefix(",\"hosts\":["@, t) {
        Option::Some(t1) => match parse_strings(t1) {
            Option::Some((hs, rest)) => Option::Some((Option::Some(hs), rest)),
            Option::None => Option::None,
        },
        Option::None => Option::Some((Option::None, t)),
    }
}

/// Reads one `,"name":{...}` user-group segment.
pub open spec fn parse_group(t: Seq<char>) -> Option<(GroupView, Seq<char>)> {
    if t.len() >= 2 && t[0] == ',' && t[1] == '"' {
        match parse_jstring_body(t.skip(2)) {
            Option::Some((name, r1)) => match strip_prefix(":{\"children\":[],\"vars\":{"@, r1) {
                Option::Some(r2) => {
                    let vres = if r2.len() >= 1 && r2[0] == '}' {
                        Option::Some((Seq::<(Seq<char>, JsonVal)>::empty(), r2.drop_first()))
                    } else {
                        parse_jfields(r2)
                    };
                    match vres {
                        Option::Some((vars, r3)) => match parse_opt_hosts(r3) {
                            Option::Some((hosts, r4)) => {
                                if r4.len() >= 1 && r4[0] == '}' {
                                    Option::Some(
                                        (
                                            GroupView { name: name, vars: vars, hosts: hosts },
                                            r4.drop_first(),
                                        ),
                                    )
                                } else {
                                    Option::None
                                }
                            },
                            Option::None => Option::None,
                        },
                        Option::None => Option::None,
                    }
                },
                Option::None => Option::None,
            },
            Option::None => Option::None,
        }
    } else {
        Option::None
    }
}

/// Reads zero or more user-group segments, up to and through the document's
/// closing brace.
pub open spec fn parse_groups(t: Seq<char>) -> Option<(Seq<GroupView>, Seq<char>)>
    decreases t.len(),
{
    if t.len() >= 1 && t[0] == ',' {
        match parse_group(t) {
            Option::Some((g, r)) => {
                if r.len() < t.len() {
                    match parse_groups(r) {
                        Option::Some((gs, rest)) => Option::Some((seq![g] + gs, rest)),
                        Option::None => Option::None,
                    }
                } else {
                    Option::None
                }
            },
            Option::None => Option::None,
        }
    } else if t.len() >= 1 && t[0] == '}' {
        Option::Some((Seq::empty(), t.drop_first()))
    } else {
        Option::None
    }
}

/// Reads back a whole document in the canonical form [`doc_text`] fixes:
/// the reserved structure, the `ungrouped` data, and the user groups, whose
/// names must match `all.children`.
pub open spec fn parse_doc(t: Seq<char>) -> Option<InventoryView> {
    match strip_prefix("{\"_meta\":{\"hostvars\":{}},\"all\":{\"children\":[\"ungrouped\""@, t) {
        Option::Some(t1) => match parse_names(t1) {
            Option::Some((names, t2)) => match strip_prefix(
                "]},\"ungrouped\":{\"children\":[]"@,
                t2,
            ) {
                Option::Some(t3) => match parse_opt_vars(t3) {
                    Option::Some((uv, t4)) => match parse_opt_hosts(t4) {
                        Option::Some((uh, t5)) => {
                            if t5.len() >= 1 && t5[0] == '}' {
                                match parse_groups(t5.drop_first()) {
                                    Option::Some((gs, t6)) => {
                                        if t6.len() == 0 && names == gs.map_values(
                                            |g: GroupView| g.name,
                                        ) {
                                            Option::Some(
                                                InventoryView {
                                                    groups: gs,
                                                    ungrouped_vars: uv,
                                                    ungrouped_hosts: uh,
                                                },
                                            )
                                        } else {
                                            Option::None
                                        }
                                    },
                                    Option::None => Option::None,
                                }
                            } else {
                                Option::None
                            }
                        },
                        Option::None => Option::None,
                    },
                    Option::None => Option::None,
                },
                Option::None => Option::None,
            },
            Option::None => Option::None,
        },
        Option::None => Option::None,
    }
}

/// The text of a non-empty name list starts with its first `,"name"` entry.
proof fn lemma_name_list_text_front(ns: Seq<Seq<char>>)
    requires
        ns.len() >= 1,
    ensures
        name_list_text(ns) == seq![','] + quoted(ns[0]) + name_list_text(ns.drop_first()),
    decreases ns.len(),
{
    if ns.len() == 1 {
        assert(ns.drop_first() =~= Seq::<Seq<char>>::empty());
        assert(name_list_text(ns.drop_first()) == Seq::<char>::empty());
        assert(ns.drop_last() =~= Seq::<Seq<char>>::empty());
        assert(name_list_text(ns.drop_last()) == Seq::<char>::empty());
        assert(ns.last() == ns[0]);
        assert(name_list_text(ns) == name_list_text(ns.drop_last()) + seq![','] + quoted(
            ns.last(),
        ));
        assert(name_list_text(ns) =~= seq![','] + quoted(ns[0]) + name_list_text(
            ns.drop_first(),
        ));
    } else {
        let dl = ns.drop_last();
        lemma_name_list_text_front(dl);
        assert(dl[0] == ns[0]);
        assert(ns.drop_first().drop_last() =~= dl.drop_first());
        assert(ns.drop_first().last() == ns.last());
        assert(name_list_text(ns) == name_list_text(dl) + seq![','] + quoted(ns.last()));
        assert(name_list_text(ns.drop_first()) == name_list_text(ns.drop_first().drop_last())
            + seq![','] + quoted(ns.drop_first().last()));
        assert(name_list_text(ns.drop_first().drop_last()) == name_list_text(dl.drop_first()));
        assert(name_list_text(ns) =~= seq![','] + quoted(ns[0]) + name_list_text(
            ns.drop_first(),
        ));
    }
}

/// The text of a non-empty string list starts with its first string.
proof fn lemma_strings_text_front(ss: Seq<Seq<char>>)
    requires
        ss.len() >= 1,
    ensures
        strings_text(ss) == quoted(ss[0]) + (if ss.len() == 1 {
            Seq::<char>::empty()
        } else {
            seq![','] + strings_text(ss.drop_first())
        }),
    decreases ss.len(),
{
    if ss.len() == 1 {
        assert(strings_text(ss) =~= quoted(ss[0]) + Seq::<char>::empty());
    } else {
        let dl = ss.drop_last();
        lemma_strings_text_front(dl);
        assert(dl[0] == ss[0]);
        assert(ss.drop_first().drop_last() =~= dl.drop_first());
        assert(ss.drop_first().last() == ss.last());
        assert(strings_text(ss) == strings_text(dl) + seq![','] + quoted(ss.last()));
        if ss.len() == 2 {
            assert(strings_text(dl) == quoted(ss[0]) + Seq::<char>::empty());
            assert(strings_text(ss.drop_first()) == quoted(ss.drop_first()[0]));
            assert(ss.drop_first()[0] == ss.last());
            assert(strings_text(ss) =~= quoted(ss[0]) + (seq![','] + strings_text(
                ss.drop_first(),
            )));
        } else {
            assert(strings_text(dl) == quoted(ss[0]) + (seq![','] + strings_text(
                dl.drop_first(),
            )));
            assert(strings_text(ss.drop_first()) == strings_text(ss.drop_first().drop_last())
                + seq![','] + quoted(ss.drop_first().last()));
            assert(strings_text(ss.drop_first().drop_last()) == strings_text(dl.drop_first()));
            assert(strings_text(ss) =~= quoted(ss[0]) + (seq![','] + strings_text(
                ss.drop_first(),
            )));
        }
    }
}

/// The text of a non-empty group list starts with its first group's segment.
proof fn lemma_groups_text_front(gs: Seq<GroupView>)
    requires
        gs.len() >= 1,
    ensures
        groups_text(gs) == group_text(gs[0]) + groups_text(gs.drop_first()),
    decreases gs.len(),
{
    if gs.len() == 1 {
        assert(gs.drop_first() =~= Seq::<GroupView>::empty());
        assert(groups_text(gs.drop_first()) == Seq::<char>::empty());
        assert(gs.drop_last() =~= Seq::<GroupView>::empty());
        assert(groups_text(gs.drop_last()) == Seq::<char>::empty());
        assert(gs.last() == gs[0]);
        assert(groups_text(gs) == groups_text(gs.drop_last()) + group_text(gs.last()));
        assert(groups_text(gs) =~= group_text(gs[0]) + groups_text(gs.drop_first()));
    } else {
        let dl = gs.drop_last();
        lemma_groups_text_front(dl);
        assert(dl[0] == gs[0]);
        assert(gs.drop_first().drop_last() =~= dl.drop_first());
        assert(gs.drop_first().last() == gs.last());
        assert(groups_text(gs) == groups_text(dl) + group_text(gs.last()));
        assert(groups_text(gs.drop_first()) == groups_text(gs.drop_first().drop_last())
            + group_text(gs.drop_first().last()));
        assert(groups_text(gs.drop_first().drop_last()) == groups_text(dl.drop_first()));
        assert(groups_text(gs) =~= group_text(gs[0]) + groups_text(gs.drop_first()));
    }
}

/// Reading back a name list, up to a closing bracket, yields the names.
proof fn lemma_parse_names_round_trip(ns: Seq<Seq<char>>, rest: Seq<char>)
    requires
        rest.len() >= 1,
        rest[0] == ']',
    ensures
        parse_names(name_list_text(ns) + rest) == Option::Some((ns, rest)),
    decreases ns.len(),
{
    let t = name_list_text(ns) + rest;
    if ns.len() == 0 {
        assert(t =~= rest);
        assert(ns =~= Seq::<Seq<char>>::empty());
    } else {
        lemma_name_list_text_front(ns);
        let r = name_list_text(ns.drop_first()) + rest;
        assert(t =~= seq![','] + (seq!['"'] + (escape_str(ns[0]) + seq!['"'] + r)));
        assert(t[0] == ',');
        assert(t[1] == '"');
        assert(t.skip(2) =~= escape_str(ns[0]) + seq!['"'] + r);
        lemma_parse_jstring_round_trip(ns[0], r);
        assert(parse_jstring_body(t.skip(2)) == Option::Some((ns[0], r)));
        assert(r.len() < t.len());
        lemma_parse_names_round_trip(ns.drop_first(), rest);
        assert(parse_names(r) == Option::Some((ns.drop_first(), rest)));
        assert(seq![ns[0]] + ns.drop_first() =~= ns);
    }
}

/// Reading back a string list, closing bracket included, yields the strings.
proof fn lemma_parse_strings_round_trip(ss: Seq<Seq<char>>, rest: Seq<char>)
    ensures
        parse_strings(strings_text(ss) + seq![']'] + rest) == Option::Some((ss, rest)),
    decreases ss.len(),
{
    let t = strings_text(ss) + seq![']'] + rest;
    if ss.len() == 0 {
        assert(strings_text(ss) == Seq::<char>::empty());
        assert(t =~= seq![']'] + rest);
        assert(t[0] == ']');
        assert(t.drop_first() =~= rest);
        assert(ss =~= Seq::<Seq<char>>::empty());
    } else {
        lemma_strings_text_front(ss);
        let tail = if ss.len() == 1 {
            seq![']'] + rest
        } else {
            seq![','] + strings_text(ss.drop_first()) + seq![']'] + rest
        };
        assert(t =~= seq!['"'] + (escape_str(ss[0]) + seq!['"'] + tail));
        assert(t[0] == '"');
        assert(t[0] != ']');
        assert(t.drop_first() =~= escape_str(ss[0]) + seq!['"'] + tail);
        lemma_parse_jstring_round_trip(ss[0], tail);
        assert(parse_jstring_body(t.drop_first()) == Option::Some((ss[0], tail)));
        assert(tail.len() < t.len());
        if ss.len() == 1 {
            assert(tail[0] == ']');
            assert(tail.drop_first() =~= rest);
            assert(seq![ss[0]] =~= ss);
        } else {
            assert(tail[0] == ',');
            assert(tail.drop_first() =~= strings_text(ss.drop_first()) + seq![']'] + rest);
            lemma_parse_strings_round_trip(ss.drop_first(), rest);
            assert(seq![ss[0]] + ss.drop_first() =~= ss);
        }
    }
}

/// Reading back an optional vars segment yields exactly it, for any
/// following text that starts with a brace or a `,"hosts"` segment.
proof fn lemma_parse_opt_vars_round_trip(vs: Option<Seq<(Seq<char>, JsonVal)>>, follow: Seq<char>)
    requires
        follow.len() >= 1,
        follow[0] == '}' || (follow.len() >= 3 && follow[0] == ',' && follow[2] == 'h'),
    ensures
        parse_opt_vars(opt_vars_text(vs) + follow) == Option::Some((vs, follow)),
{
    reveal_strlit(",\"vars\":{");
    reveal_strlit("}");
    let t = opt_vars_text(vs) + follow;
    match vs {
        Option::None => {
            assert(t =~= follow);
            if strip_prefix(",\"vars\":{"@, follow) is Some {
                assert(",\"vars\":{"@.len() == 9);
                assert(",\"vars\":{"@[0] == ',');
                assert(",\"vars\":{"@[2] == 'v');
                assert(follow.take(9) == ",\"vars\":{"@);
                assert(follow.take(9)[0] == follow[0]);
                assert(follow.take(9)[2] == follow[2]);
                assert(follow[0] == ',' && follow[2] == 'v');
                assert(false);
            }
        },
        Option::Some(m) => {
            let body = fields_text(m) + seq!['}'] + follow;
            assert("}"@ =~= seq!['}']);
            assert(t =~= ",\"vars\":{"@ + body);
            lemma_strip_prefix(",\"vars\":{"@, body);
            if m.len() == 0 {
                assert(fields_text(m) == Seq::<char>::empty());
                assert(body =~= seq!['}'] + follow);
                assert(body[0] == '}');
                assert(body.drop_first() =~= follow);
                assert(m =~= Seq::<(Seq<char>, JsonVal)>::empty());
            } else {
                lemma_fields_text_front(m);
                assert(fields_text(m)[0] == '"');
                assert(body[0] == '"');
                assert(body[0] != '}');
                lemma_parse_jfields_round_trip(m, follow);
            }
        },
    }
}

/// Reading back an optional hosts segment yields exactly it, for any
/// following text that starts with a brace.
proof fn lemma_parse_opt_hosts_round_trip(hs: Option<Seq<Seq<char>>>, follow: Seq<char>)
    requires
        follow.len() >= 1,
        follow[0] == '}',
    ensures
        parse_opt_hosts(opt_hosts_text(hs) + follow) == Option::Some((hs, follow)),
{
    reveal_strlit(",\"hosts\":[");
    reveal_strlit("]");
    let t = opt_hosts_text(hs) + follow;
    match hs {
        Option::None => {
            assert(t =~= follow);
            if strip_prefix(",\"hosts\":["@, follow) is Some {
                assert(",\"hosts\":["@.len() == 10);
                assert(",\"hosts\":["@[0] == ',');
                assert(follow.take(10) == ",\"hosts\":["@);
                assert(follow.take(10)[0] == follow[0]);
                assert(follow[0] == ',');
                assert(false);
            }
        },
        Option::Some(h) => {
            let body = strings_text(h) + seq![']'] + follow;
            assert("]"@ =~= seq![']']);
            assert(t =~= ",\"hosts\":["@ + body);
            lemma_strip_prefix(",\"hosts\":["@, body);
            lemma_parse_strings_round_trip(h, follow);
        },
    }
}

/// Reading back one user-group segment yields exactly that group.
#[verifier::rlimit(50)]
proof fn lemma_parse_group_round_trip(g: GroupView, rest: Seq<char>)
    ensures
        parse_group(group_text(g) + rest) == Option::Some((g, rest)),
{
    reveal_strlit(":{\"children\":[],\"vars\":{");
    reveal_strlit("}");
    let t = group_text(g) + rest;
    let r1 = ":{\"children\":[],\"vars\":{"@ + (fields_text(g.vars) + seq!['}'] + (opt_hosts_text(
        g.hosts,
    ) + seq!['}'] + rest));
    assert("}"@ =~= seq!['}']);
    assert(t =~= seq![','] + (seq!['"'] + (escape_str(g.name) + seq!['"'] + r1)));
    assert(t[0] == ',' && t[1] == '"');
    assert(t.skip(2) =~= escape_str(g.name) + seq!['"'] + r1);
    lemma_parse_jstring_round_trip(g.name, r1);
    assert(parse_jstring_body(t.skip(2)) == Option::Some((g.name, r1)));
    let r2 = fields_text(g.vars) + seq!['}'] + (opt_hosts_text(g.hosts) + seq!['}'] + rest);
    assert(r1 =~= ":{\"children\":[],\"vars\":{"@ + r2);
    lemma_strip_prefix(":{\"children\":[],\"vars\":{"@, r2);
    let r3 = opt_hosts_text(g.hosts) + seq!['}'] + rest;
    if g.vars.len() == 0 {
        assert(fields_text(g.vars) == Seq::<char>::empty());
        assert(r2 =~= seq!['}'] + r3);
        assert(r2[0] == '}');
        assert(r2.drop_first() =~= r3);
        assert(g.vars =~= Seq::<(Seq<char>, JsonVal)>::empty());
    } else {
        lemma_fields_text_front(g.vars);
        assert(r2[0] == '"');
        assert(r2[0] != '}');
        assert(r2 =~= fields_text(g.vars) + seq!['}'] + r3);
        lemma_parse_jfields_round_trip(g.vars, r3);
    }
    let r4 = seq!['}'] + rest;
    assert(r3 =~= opt_hosts_text(g.hosts) + r4);
    lemma_parse_opt_hosts_round_trip(g.hosts, r4);
    assert(r4[0] == '}');
    assert(r4.drop_first() =~= rest);
    assert((GroupView { name: g.name, vars: g.vars, hosts: g.hosts }) =~= g);
}

/// Reading back the user-group segments, closing brace included, yields the
/// groups.
proof fn lemma_parse_groups_round_trip(gs: Seq<GroupView>, rest: Seq<char>)
    ensures
        parse_groups(groups_text(gs) + seq!['}'] + rest) == Option::Some((gs, rest)),
    decreases gs.len(),
{
    let t = groups_text(gs) + seq!['}'] + rest;
    if gs.len() == 0 {
        assert(groups_text(gs) == Seq::<char>::empty());
        assert(t =~= seq!['}'] + rest);
        assert(t[0] == '}');
        assert(t.drop_first() =~= rest);
        assert(gs =~= Seq::<GroupView>::empty());
    } else {
        lemma_groups_text_front(gs);
        let r = groups_text(gs.drop_first()) + seq!['}'] + rest;
        assert(t =~= group_text(gs[0]) + r);
        assert(t[0] == ',');
        lemma_parse_group_round_trip(gs[0], r);
        assert(parse_group(t) == Option::Some((gs[0], r)));
        assert(r.len() < t.len());
        lemma_parse_groups_round_trip(gs.drop_first(), rest);
        assert(seq![gs[0]] + gs.drop_first() =~= gs);
    }
}

/// Law (re-serialization round trip): reading back the canonical text of any
/// document yields exactly that document, so a parse of what this library
/// prints, re-serialized, reproduces the first serialization.
#[verifier::rlimit(80)]
pub proof fn lemma_parse_doc_round_trip(inv: InventoryView)
    ensures
        parse_doc(doc_text(inv)) == Option::Some(inv),
{
    reveal_strlit("{\"_meta\":{\"hostvars\":{}},\"all\":{\"children\":[\"ungrouped\"");
    reveal_strlit("]},\"ungrouped\":{\"children\":[]");
    reveal_strlit(",\"hosts\":[");
    reveal_strlit("}");
    let names = inv.group_names();
    let fin = groups_text(inv.groups) + "}"@;
    let t5 = "}"@ + fin;
    let t4body = opt_hosts_text(inv.ungrouped_hosts) + t5;
    let t3body = opt_vars_text(inv.ungrouped_vars) + t4body;
    let t2body = "]},\"ungrouped\":{\"children\":[]"@ + t3body;
    let t1body = name_list_text(names) + t2body;
    assert(doc_text(inv) =~= "{\"_meta\":{\"hostvars\":{}},\"all\":{\"children\":[\"ungrouped\""@
        + t1body);
    lemma_strip_prefix(
        "{\"_meta\":{\"hostvars\":{}},\"all\":{\"children\":[\"ungrouped\""@,
        t1body,
    );
    assert(t2body[0] == ']');
    lemma_parse_names_round_trip(names, t2body);
    lemma_strip_prefix("]},\"ungrouped\":{\"children\":[]"@, t3body);
    assert(t5[0] == '}');
    assert(t4body.len() >= 1);
    match inv.ungrouped_hosts {
        Option::None => {
            assert(t4body =~= t5);
            assert(t4body[0] == '}');
        },
        Option::Some(h) => {
            assert(t4body[0] == ',' && t4body[2] == 'h');
        },
    }
    lemma_parse_opt_vars_round_trip(inv.ungrouped_vars, t4body);
    lemma_parse_opt_hosts_round_trip(inv.ungrouped_hosts, t5);
    assert(t5.drop_first() =~= fin);
    assert(fin =~= groups_text(inv.groups) + seq!['}'] + Seq::<char>::empty());
    lemma_parse_groups_round_trip(inv.groups, Seq::<char>::empty());
    assert(names == inv.groups.map_values(|g: GroupView| g.name));
    assert((InventoryView {
        groups: inv.groups,
        ungrouped_vars: inv.ungrouped_vars,
        ungrouped_hosts: inv.ungrouped_hosts,
    }) =~= inv);
}

/// `set_assoc` preserves key distinctness.
pub proof fn lemma_set_assoc_distinct(m: Seq<(Seq<char>, JsonVal)>, k: Seq<char>, v: JsonVal)
    requires
        distinct_keys(m),
    ensures
        distinct_keys(set_assoc(m, k, v)),
{
    let m1 = set_assoc(m, k, v);
    if assoc_has(m, k) {
        let ai = assoc_index(m, k);
        assert(0 <= ai < m.len() && m[ai].0 == k);
        assert forall|p: int, q: int| 0 <= p < q < m1.len() implies m1[p].0 != m1[q].0 by {
            assert(m1[p].0 == m[p].0);
            assert(m1[q].0 == m[q].0);
        }
    } else {
        assert forall|p: int, q: int| 0 <= p < q < m1.len() implies m1[p].0 != m1[q].0 by {
            if q == m.len() {
                assert(m1[p].0 == m[p].0);
                assert(m1[q].0 == k);
            } else {
                assert(m1[p].0 == m[p].0);
                assert(m1[q].0 == m[q].0);
            }
        }
    }
}

/// Law: calling `add_group_var` twice with the same group and key keeps only
/// the latest value, and setting a variable never changes `all.children` at
/// all (in particular the group is not duplicated there).
pub proof fn lemma_add_group_var_latest_wins(
    inv: InventoryView,
    name: Seq<char>,
    key: Seq<char>,
    v1: JsonVal,
    v2: JsonVal,
)
    requires
        inv.wf(),
        name != "all"@,
        name != "_meta"@,
    ensures
        inv.spec_add_group_var(name, key, v1).spec_add_group_var(name, key, v2)
            == inv.spec_add_group_var(name, key, v2),
        inv.spec_add_group_var(name, key, v1).children() == inv.spec_add_group(name).children(),
{
    if name == "ungrouped"@ {
        lemma_set_assoc_latest_wins(opt_or_empty(inv.ungrouped_vars), key, v1, v2);
        let d1 = inv.spec_add_group_var(name, key, v1);
        assert(opt_or_empty(d1.ungrouped_vars) == set_assoc(
            opt_or_empty(inv.ungrouped_vars),
            key,
            v1,
        ));
        assert(d1.spec_add_group_var(name, key, v2) =~= inv.spec_add_group_var(name, key, v2));
        assert(d1.children() == inv.spec_add_group(name).children());
    } else {
        let base = inv.spec_add_group(name);
        lemma_spec_add_group(inv, name);
        if !inv.has_group(name) {
            assert(base.groups[base.groups.len() - 1].name == name);
        }
        assert(base.has_group(name));
        let gi = base.group_index(name);
        assert(0 <= gi < base.groups.len() && base.groups[gi].name == name);
        let g = base.groups[gi];
        assert(distinct_keys(g.vars));
        lemma_set_assoc_distinct(g.vars, key, v1);
        lemma_set_assoc_latest_wins(g.vars, key, v1, v2);
        let d1 = inv.spec_add_group_var(name, key, v1);
        assert(d1.groups == base.groups.update(
            gi,
            GroupView { vars: set_assoc(g.vars, key, v1), ..g },
        ));
        assert(d1.group_names() =~= base.group_names());
        assert(d1.groups[gi].name == name);
        assert(d1.has_group(name));
        assert(d1.spec_add_group(name) == d1);
        let gi2 = d1.group_index(name);
        assert(0 <= gi2 < d1.groups.len() && d1.groups[gi2].name == name);
        if gi2 != gi {
            assert(d1.groups[gi2].name == base.groups[gi2].name);
            assert(false);
        }
        let g2 = d1.groups[gi];
        assert(g2.vars == set_assoc(g.vars, key, v1));
        let d12 = d1.spec_add_group_var(name, key, v2);
        let d2 = inv.spec_add_group_var(name, key, v2);
        assert forall|t: int| 0 <= t < d12.groups.len() implies d12.groups[t] == d2.groups[t] by {
            if t == gi {
                assert(d12.groups[t] =~= d2.groups[t]);
            }
        }
        assert(d12 =~= d2);
        assert(d1.children() =~= base.children());
    }
}

} // verus!
