//! The registry of capture groups: which index each group has, which groups
//! are named, and which are only numbered.
//!
//! A registry is modelled by the names of its groups in declaration order,
//! `None` standing for a group without a name. The group at place `i` of that
//! sequence has the index `i + 1`.

use crate::ast::{Expr, ExprView, lemma_expr_views, expr_views};
use crate::text::{decimal, push_decimal, push_signed, signed_decimal, str_eq};
use vstd::prelude::*;
use vstd::string::*;

verus! {

/// The names of the groups of a registry, in declaration order.
pub type Names = Seq<Option<Seq<char>>>;

/// The index of the first group of `names` that is called `name`.
pub open spec fn index_of_name(names: Names, name: Seq<char>) -> Option<u32>
    decreases names.len(),
{
    if names.len() == 0 {
        None
    } else {
        let earlier = index_of_name(names.drop_last(), name);
        if earlier is Some {
            earlier
        } else if names.last() == Some(name) {
            Some(names.len() as u32)
        } else {
            None
        }
    }
}

/// The indices of the groups of `names` that have no name, in declaration
/// order: the groups that relative backreferences count.
pub open spec fn numbered_of(names: Names) -> Seq<u32>
    decreases names.len(),
{
    if names.len() == 0 {
        Seq::empty()
    } else if names.last() is None {
        numbered_of(names.drop_last()).push(names.len() as u32)
    } else {
        numbered_of(names.drop_last())
    }
}

/// No two groups of `names` carry the same name.
pub open spec fn names_unique(names: Names) -> bool {
    forall|i: int, j: int|
        0 <= i < j < names.len() && names[i] is Some ==> #[trigger] names[i] != #[trigger] names[j]
}

/// The group that the relative backreference `relative` stands for: the
/// numbered group that is `-relative` places from the end of the numbered
/// groups, the last one being one place from the end.
pub open spec fn resolve_relative(names: Names, relative: int) -> Option<u32> {
    let numbered = numbered_of(names);
    if relative < 0 && -relative <= numbered.len() {
        Some(numbered[numbered.len() + relative])
    } else {
        None
    }
}

/// `value` held between the bounds of an `i32` from above.
pub open spec fn clamp_i32(value: int) -> i32 {
    if value > 0x7fff_ffff {
        0x7fff_ffffi32
    } else {
        value as i32
    }
}

pub proof fn lemma_index_of_name(names: Names, name: Seq<char>)
    requires
        names.len() <= u32::MAX,
    ensures
        match index_of_name(names, name) {
            Some(k) => 1 <= k <= names.len() && names[k - 1] == Some(name) && forall|i: int|
                0 <= i < k - 1 ==> #[trigger] names[i] != Some(name),
            None => forall|i: int| 0 <= i < names.len() ==> #[trigger] names[i] != Some(name),
        },
    decreases names.len(),
{
    if names.len() > 0 {
        lemma_index_of_name(names.drop_last(), name);
        let earlier = index_of_name(names.drop_last(), name);
        match earlier {
            Some(k) => {
                assert(names.drop_last()[k - 1] == names[k - 1]);
                assert forall|i: int| 0 <= i < k - 1 implies #[trigger] names[i] != Some(name) by {
                    assert(names.drop_last()[i] == names[i]);
                }
            },
            None => {
                assert forall|i: int| 0 <= i < names.len() - 1 implies #[trigger] names[i] != Some(
                    name,
                ) by {
                    assert(names.drop_last()[i] == names[i]);
                }
            },
        }
    }
}

pub proof fn lemma_numbered_of(names: Names)
    requires
        names.len() <= u32::MAX,
    ensures
        numbered_of(names).len() <= names.len(),
        forall|i: int|
            0 <= i < numbered_of(names).len() ==> 1 <= #[trigger] numbered_of(names)[i]
                <= names.len() && names[numbered_of(names)[i] - 1] is None,
    decreases names.len(),
{
    if names.len() > 0 {
        lemma_numbered_of(names.drop_last());
        let rest = numbered_of(names.drop_last());
        assert forall|i: int| 0 <= i < numbered_of(names).len() implies 1 <= #[trigger] numbered_of(
            names,
        )[i] <= names.len() && names[numbered_of(names)[i] - 1] is None by {
            if i < rest.len() {
                assert(numbered_of(names)[i] == rest[i]);
                assert(names.drop_last()[rest[i] - 1] == names[rest[i] - 1]);
            }
        }
    }
}

/// Where no group has a name, the numbered groups are all the groups, in
/// order: the `i`-th of them has the index `i + 1`.
pub proof fn lemma_numbered_all(names: Names)
    requires
        forall|i: int| 0 <= i < names.len() ==> #[trigger] names[i] is None,
        names.len() <= u32::MAX,
    ensures
        numbered_of(names).len() == names.len(),
        forall|i: int| 0 <= i < names.len() ==> #[trigger] numbered_of(names)[i] == i + 1,
    decreases names.len(),
{
    if names.len() > 0 {
        assert forall|i: int| 0 <= i < names.drop_last().len() implies #[trigger] names.drop_last()[i] is None by {
            assert(names.drop_last()[i] == names[i]);
        }
        lemma_numbered_all(names.drop_last());
        assert(names.last() == names[names.len() - 1]);
    }
}

/// In a pattern without named groups, the relative backreference `-k` stands
/// for the group `n + 1 - k`, where `n` is the number of groups.
pub proof fn lemma_relative_is_numeric(names: Names, k: int)
    requires
        forall|i: int| 0 <= i < names.len() ==> #[trigger] names[i] is None,
        names.len() <= u32::MAX,
        1 <= k <= names.len(),
    ensures
        resolve_relative(names, -k) == Some((names.len() + 1 - k) as u32),
{
    lemma_numbered_all(names);
}

/// The name `name` as a sequence of codepoints, if there is one.
pub open spec fn name_view_of(name: Option<String>) -> Option<Seq<char>> {
    match name {
        Some(n) => Some(n@),
        None => None,
    }
}

/// What is known of one capture group.
#[derive(Debug, Clone, PartialEq)]
pub struct GroupInfo {
    /// The index of the group, counted from 1.
    pub index: u32,
    /// The name of the group, if it has one.
    pub name: Option<String>,
    /// Whether the group has a name.
    pub is_named: bool,
}

impl GroupInfo {
    /// The name of the group as a sequence of codepoints.
    pub open spec fn name_view(&self) -> Option<Seq<char>> {
        name_view_of(self.name)
    }
}

/// What can go wrong with groups and references to them.
#[derive(Debug, Clone, PartialEq)]
pub enum GroupRegistryError {
    /// A name is given to a second group.
    DuplicateGroupName(String),
    /// A backreference names a group that does not exist.
    UndefinedBackreference(String),
    /// A backreference has the number of no group.
    InvalidBackreference(u32),
    /// A relative backreference reaches past the first numbered group, or
    /// its index is not negative.
    InvalidRelativeBackreference(i32),
}

pub enum GroupRegistryErrorView {
    DuplicateGroupName(Seq<char>),
    UndefinedBackreference(Seq<char>),
    InvalidBackreference(u32),
    InvalidRelativeBackreference(i32),
}

impl View for GroupRegistryError {
    type V = GroupRegistryErrorView;

    open spec fn view(&self) -> GroupRegistryErrorView {
        match self {
            GroupRegistryError::DuplicateGroupName(n) => GroupRegistryErrorView::DuplicateGroupName(
                n@,
            ),
            GroupRegistryError::UndefinedBackreference(n) =>
                GroupRegistryErrorView::UndefinedBackreference(n@),
            GroupRegistryError::InvalidBackreference(n) =>
                GroupRegistryErrorView::InvalidBackreference(*n),
            GroupRegistryError::InvalidRelativeBackreference(n) =>
                GroupRegistryErrorView::InvalidRelativeBackreference(*n),
        }
    }
}

impl GroupRegistryErrorView {
    /// The message of this error.
    pub open spec fn text(self) -> Seq<char> {
        match self {
            GroupRegistryErrorView::DuplicateGroupName(n) => "duplicate group name: "@ + n,
            GroupRegistryErrorView::UndefinedBackreference(n) => "undefined backreference: "@ + n,
            GroupRegistryErrorView::InvalidBackreference(n) => "invalid backreference number: "@
                + decimal(n as nat),
            GroupRegistryErrorView::InvalidRelativeBackreference(n) =>
                "invalid relative backreference index: "@ + signed_decimal(n as int),
        }
    }
}

impl GroupRegistryError {
    /// The message of this error.
    pub fn to_string(&self) -> (s: String)
        ensures
            s@ == self@.text(),
    {
        match self {
            GroupRegistryError::DuplicateGroupName(n) => {
                let mut s = String::from_str("duplicate group name: ");
                s.append(n.as_str());
                s
            },
            GroupRegistryError::UndefinedBackreference(n) => {
                let mut s = String::from_str("undefined backreference: ");
                s.append(n.as_str());
                s
            },
            GroupRegistryError::InvalidBackreference(n) => {
                let mut s = String::from_str("invalid backreference number: ");
                push_decimal(&mut s, *n as u64);
                s
            },
            GroupRegistryError::InvalidRelativeBackreference(n) => {
                let mut s = String::from_str("invalid relative backreference index: ");
                push_signed(&mut s, *n);
                s
            },
        }
    }
}

/// The capture groups of one pattern.
#[derive(Debug, Clone)]
pub struct GroupRegistry {
    groups: Vec<GroupInfo>,
    numbered_groups: Vec<u32>,
    next_index: u32,
}

impl View for GroupRegistry {
    type V = Names;

    closed spec fn view(&self) -> Names {
        Seq::new(self.groups@.len(), |i: int| self.groups@[i].name_view())
    }
}

impl GroupRegistry {
    /// The largest number of groups that a registry holds.
    pub open spec fn capacity() -> nat {
        0xffff_fffe
    }

    /// The indices are 1, 2, ... in declaration order, and the list of
    /// numbered groups holds the groups without a name.
    pub closed spec fn wf(&self) -> bool {
        &&& self.groups@.len() <= Self::capacity()
        &&& self.next_index == self.groups@.len() + 1
        &&& forall|i: int|
            0 <= i < self.groups@.len() ==> (#[trigger] self.groups@[i]).index == i + 1
                && self.groups@[i].is_named == (self.groups@[i].name is Some)
        &&& self.numbered_groups@ == numbered_of(self@)
    }

    /// The group records, in declaration order.
    pub closed spec fn infos(&self) -> Seq<GroupInfo> {
        self.groups@
    }

    /// The records are those of the groups of the view, one each.
    pub proof fn lemma_infos(&self)
        requires
            self.wf(),
        ensures
            self.infos().len() == self@.len(),
            self@.len() <= Self::capacity(),
            forall|i: int|
                0 <= i < self@.len() ==> (#[trigger] self.infos()[i]).index == i + 1
                    && self.infos()[i].is_named == (self@[i] is Some) && self.infos()[i].name_view()
                    == self@[i],
    {
    }

    /// An empty registry.
    pub fn new() -> (r: GroupRegistry)
        ensures
            r.wf(),
            r@ == Names::empty(),
    {
        let r = GroupRegistry { groups: Vec::new(), numbered_groups: Vec::new(), next_index: 1 };
        assert(r@ =~= Names::empty());
        r
    }

    /// Adds a group whatever its name: a name that is taken already stays
    /// with the earlier group in every lookup.
    pub(crate) fn declare(&mut self, name: Option<String>) -> (index: u32)
        requires
            old(self).wf(),
            old(self)@.len() < Self::capacity(),
        ensures
            final(self).wf(),
            index == old(self)@.len() + 1,
            final(self)@ == old(self)@.push(name_view_of(name)),
    {
        let index = self.next_index;
        let ghost before = self@;
        let ghost name_view = name_view_of(name);
        let is_named = name.is_some();
        if !is_named {
            self.numbered_groups.push(index);
        }
        self.groups.push(GroupInfo { index, name, is_named });
        self.next_index = self.next_index + 1;
        proof {
            assert(self@ =~= before.push(name_view));
            assert(self@.drop_last() =~= before);
        }
        index
    }

    /// Adds a group and returns its index: one more than the number of
    /// groups before. A name that another group has already is refused, and
    /// the registry stays as it was.
    pub fn register_group(&mut self, name: Option<String>) -> (r: Result<u32, GroupRegistryError>)
        requires
            old(self).wf(),
            old(self)@.len() < Self::capacity(),
        ensures
            final(self).wf(),
            match name {
                Some(n) if index_of_name(old(self)@, n@) is Some => {
                    &&& r is Err
                    &&& r->Err_0@ == GroupRegistryErrorView::DuplicateGroupName(n@)
                    &&& final(self)@ == old(self)@
                },
                Some(n) => {
                    &&& r == Ok::<u32, GroupRegistryError>((old(self)@.len() + 1) as u32)
                    &&& final(self)@ == old(self)@.push(Some(n@))
                },
                None => {
                    &&& r == Ok::<u32, GroupRegistryError>((old(self)@.len() + 1) as u32)
                    &&& final(self)@ == old(self)@.push(None)
                },
            },
            names_unique(old(self)@) ==> names_unique(final(self)@),
    {
        match &name {
            Some(n) => {
                if self.has_name(n.as_str()) {
                    return Err(GroupRegistryError::DuplicateGroupName(n.clone()));
                }
                proof {
                    lemma_index_of_name(self@, n@);
                }
            },
            None => {},
        }
        Ok(self.declare(name))
    }

    /// The record of the group with the index `index`, if there is one.
    pub fn get_by_index(&self, index: u32) -> (r: Option<&GroupInfo>)
        requires
            self.wf(),
        ensures
            match r {
                Some(info) => 1 <= index <= self@.len() && *info == self.infos()[index - 1],
                None => index == 0 || index > self@.len(),
            },
    {
        if index >= 1 && index as usize <= self.groups.len() {
            Some(&self.groups[index as usize - 1])
        } else {
            None
        }
    }

    /// The index of the first group called `name`, if there is one.
    pub fn get_by_name(&self, name: &str) -> (r: Option<u32>)
        requires
            self.wf(),
        ensures
            r == index_of_name(self@, name@),
    {
        let mut i: usize = 0;
        while i < self.groups.len()
            invariant
                self.wf(),
                i <= self.groups@.len(),
                index_of_name(self@.take(i as int), name@) is None,
            decreases self.groups@.len() - i,
        {
            let ghost upto = self@.take(i + 1);
            assert(upto.drop_last() =~= self@.take(i as int));
            assert(upto.last() == self@[i as int]);
            let found = match &self.groups[i].name {
                Some(n) => str_eq(n.as_str(), name),
                None => false,
            };
            if found {
                proof {
                    lemma_index_found(self@, name@, i + 1);
                }
                return Some(self.groups[i].index);
            }
            i += 1;
        }
        assert(self@.take(i as int) =~= self@);
        None
    }

    /// Whether a group is called `name`.
    pub fn has_name(&self, name: &str) -> (b: bool)
        requires
            self.wf(),
        ensures
            b == index_of_name(self@, name@) is Some,
    {
        self.get_by_name(name).is_some()
    }

    /// The number of groups.
    pub fn group_count(&self) -> (n: usize)
        requires
            self.wf(),
        ensures
            n == self@.len(),
    {
        self.groups.len()
    }

    /// The records of all groups, in declaration order.
    pub fn groups(&self) -> (r: &[GroupInfo])
        ensures
            r@ == self.infos(),
    {
        self.groups.as_slice()
    }

    /// The index of the group called `name`, or the error for a name that no
    /// group has.
    pub fn validate_backref_name(&self, name: &str) -> (r: Result<u32, GroupRegistryError>)
        requires
            self.wf(),
        ensures
            match index_of_name(self@, name@) {
                Some(k) => r == Ok::<u32, GroupRegistryError>(k),
                None => r is Err && r->Err_0@ == GroupRegistryErrorView::UndefinedBackreference(
                    name@,
                ),
            },
    {
        match self.get_by_name(name) {
            Some(k) => Ok(k),
            None => Err(GroupRegistryError::UndefinedBackreference(String::from_str(name))),
        }
    }

    /// `num` if it is the index of a group, else the error for a number
    /// that no group has.
    pub fn validate_backref_number(&self, num: u32) -> (r: Result<u32, GroupRegistryError>)
        requires
            self.wf(),
        ensures
            r == if 1 <= num <= self@.len() {
                Ok::<u32, GroupRegistryError>(num)
            } else {
                Err::<u32, GroupRegistryError>(GroupRegistryError::InvalidBackreference(num))
            },
    {
        if num == 0 || num >= self.next_index {
            Err(GroupRegistryError::InvalidBackreference(num))
        } else {
            Ok(num)
        }
    }

    /// The number of groups without a name.
    pub fn numbered_group_count(&self) -> (n: usize)
        requires
            self.wf(),
        ensures
            n == numbered_of(self@).len(),
    {
        self.numbered_groups.len()
    }

    /// The indices of the groups without a name, in declaration order.
    pub fn numbered_groups(&self) -> (r: &[u32])
        requires
            self.wf(),
        ensures
            r@ == numbered_of(self@),
    {
        self.numbered_groups.as_slice()
    }

    /// The index of the numbered group that is `reverse_index` places from
    /// the end, the last one being at place 1.
    pub fn get_numbered_by_reverse_index(&self, reverse_index: usize) -> (r: Result<
        u32,
        GroupRegistryError,
    >)
        requires
            self.wf(),
        ensures
            r == if 1 <= reverse_index <= numbered_of(self@).len() {
                Ok::<u32, GroupRegistryError>(
                    numbered_of(self@)[numbered_of(self@).len() - reverse_index],
                )
            } else {
                Err::<u32, GroupRegistryError>(
                    GroupRegistryError::InvalidRelativeBackreference(
                        clamp_i32(reverse_index as int),
                    ),
                )
            },
    {
        if reverse_index == 0 || reverse_index > self.numbered_groups.len() {
            let shown: i32 = if reverse_index > 0x7fff_ffff {
                0x7fff_ffff
            } else {
                reverse_index as i32
            };
            return Err(GroupRegistryError::InvalidRelativeBackreference(shown));
        }
        Ok(self.numbered_groups[self.numbered_groups.len() - reverse_index])
    }

    /// The index of the group that the relative backreference `relative`
    /// stands for.
    pub fn resolve_relative_backreference(&self, relative: i32) -> (r: Result<
        u32,
        GroupRegistryError,
    >)
        requires
            self.wf(),
        ensures
            match resolve_relative(self@, relative as int) {
                Some(k) => r == Ok::<u32, GroupRegistryError>(k),
                None => r == Err::<u32, GroupRegistryError>(
                    GroupRegistryError::InvalidRelativeBackreference(
                        if relative >= 0 {
                            relative
                        } else {
                            clamp_i32(-(relative as int))
                        },
                    ),
                ),
            },
    {
        if relative >= 0 {
            return Err(GroupRegistryError::InvalidRelativeBackreference(relative));
        }
        let reverse: u32 = (-(relative as i64)) as u32;
        proof {
            lemma_numbered_of(self@);
        }
        self.get_numbered_by_reverse_index(reverse as usize)
    }
}

pub proof fn lemma_index_found(names: Names, name: Seq<char>, k: int)
    requires
        1 <= k <= names.len(),
        k <= u32::MAX,
        names[k - 1] == Some(name),
        index_of_name(names.take(k - 1), name) is None,
    ensures
        index_of_name(names, name) == Some(k as u32),
    decreases names.len() - k,
{
    if k == names.len() {
        assert(names.take(k - 1) =~= names.drop_last());
    } else {
        assert(names.drop_last().take(k - 1) =~= names.take(k - 1));
        lemma_index_found(names.drop_last(), name, k);
    }
}

impl Default for GroupRegistry {
    fn default() -> (r: GroupRegistry)
        ensures
            r.wf(),
            r@ == Names::empty(),
    {
        GroupRegistry::new()
    }
}

/// The names of the groups that `e` declares, in the order in which they
/// open. What stands inside a lookaround or a conditional declares nothing.
pub open spec fn declared(e: ExprView) -> Names
    decreases e, 0nat,
{
    match e {
        ExprView::Sequence(es) => declared_upto(es, es.len()),
        ExprView::Alternation(es) => declared_upto(es, es.len()),
        ExprView::Quantified { expr, quantifier } => declared(*expr),
        ExprView::Group(inner) => seq![None] + declared(*inner),
        ExprView::NonCapturingGroup(inner) => declared(*inner),
        ExprView::NamedGroup { name, pattern } => seq![Some(name)] + declared(*pattern),
        ExprView::AtomicGroup(inner) => declared(*inner),
        _ => Seq::empty(),
    }
}

/// The names of the groups that the first `n` expressions of `es` declare.
pub open spec fn declared_upto(es: Seq<ExprView>, n: nat) -> Names
    decreases es, n,
{
    if n == 0 || n > es.len() {
        Seq::empty()
    } else {
        declared_upto(es, (n - 1) as nat) + declared(es[n - 1])
    }
}

/// What registering the groups `fresh` one after the other makes of the
/// registry `names`: the registry behind the last group that went in, and
/// the name at which registering stopped, if a name was taken already.
pub open spec fn register_all(names: Names, fresh: Names) -> (Names, Option<Seq<char>>)
    decreases fresh.len(),
{
    if fresh.len() == 0 {
        (names, None)
    } else {
        match fresh[0] {
            Some(n) if index_of_name(names, n) is Some => (names, Some(n)),
            first => register_all(names.push(first), fresh.drop_first()),
        }
    }
}

pub proof fn lemma_register_all_concat(names: Names, a: Names, b: Names)
    ensures
        register_all(names, a + b) == if register_all(names, a).1 is Some {
            register_all(names, a)
        } else {
            register_all(register_all(names, a).0, b)
        },
    decreases a.len(),
{
    if a.len() == 0 {
        assert(a + b =~= b);
    } else {
        assert((a + b)[0] == a[0]);
        assert((a + b).drop_first() =~= a.drop_first() + b);
        match a[0] {
            Some(n) if index_of_name(names, n) is Some => {},
            first => {
                lemma_register_all_concat(names.push(first), a.drop_first(), b);
            },
        }
    }
}

pub proof fn lemma_register_all_len(names: Names, fresh: Names)
    ensures
        register_all(names, fresh).0.len() <= names.len() + fresh.len(),
        register_all(names, fresh).1 is None ==> register_all(names, fresh).0 == names + fresh,
    decreases fresh.len(),
{
    if fresh.len() > 0 {
        match fresh[0] {
            Some(n) if index_of_name(names, n) is Some => {},
            first => {
                lemma_register_all_len(names.push(first), fresh.drop_first());
                if register_all(names, fresh).1 is None {
                    assert(names.push(first) + fresh.drop_first() =~= names + fresh);
                }
            },
        }
    } else {
        assert(names + fresh =~= names);
    }
}

/// Walks a syntax tree and enters its groups into a registry.
pub struct GroupCollector;

impl GroupCollector {
    /// Registers the groups of `expr` in the order in which they open, and
    /// stops at the first name that is taken already.
    pub fn collect(expr: &Expr, registry: &mut GroupRegistry) -> (r: Result<
        (),
        GroupRegistryError,
    >)
        requires
            old(registry).wf(),
            old(registry)@.len() + declared(expr@).len() <= GroupRegistry::capacity(),
        ensures
            final(registry).wf(),
            final(registry)@ == register_all(old(registry)@, declared(expr@)).0,
            match register_all(old(registry)@, declared(expr@)).1 {
                Some(name) => r is Err && r->Err_0@ == GroupRegistryErrorView::DuplicateGroupName(
                    name,
                ),
                None => r is Ok,
            },
            names_unique(old(registry)@) ==> names_unique(final(registry)@),
    {
        Self::visit_expr(expr, registry)
    }

    fn visit_all(exprs: &Vec<Expr>, registry: &mut GroupRegistry) -> (r: Result<
        (),
        GroupRegistryError,
    >)
        requires
            old(registry).wf(),
            old(registry)@.len() + declared_upto(expr_views(*exprs), exprs@.len()).len()
                <= GroupRegistry::capacity(),
        ensures
            final(registry).wf(),
            final(registry)@ == register_all(
                old(registry)@,
                declared_upto(expr_views(*exprs), exprs@.len()),
            ).0,
            match register_all(old(registry)@, declared_upto(expr_views(*exprs), exprs@.len())).1 {
                Some(name) => r is Err && r->Err_0@ == GroupRegistryErrorView::DuplicateGroupName(
                    name,
                ),
                None => r is Ok,
            },
            names_unique(old(registry)@) ==> names_unique(final(registry)@),
        decreases exprs, 1nat,
    {
        let ghost es = expr_views(*exprs);
        let ghost start = registry@;
        proof {
            lemma_expr_views(*exprs);
        }
        let mut i: usize = 0;
        while i < exprs.len()
            invariant
                i <= exprs@.len(),
                es == expr_views(*exprs),
                es.len() == exprs@.len(),
                forall|j: int| 0 <= j < exprs@.len() ==> es[j] == (#[trigger] exprs@[j])@,
                registry.wf(),
                start == old(registry)@,
                start.len() + declared_upto(es, exprs@.len()).len() <= GroupRegistry::capacity(),
                register_all(start, declared_upto(es, i as nat)) == (registry@, None::<Seq<char>>),
                names_unique(start) ==> names_unique(registry@),
            decreases exprs@.len() - i,
        {
            proof {
                lemma_declared_upto_grows(es, (i + 1) as nat, exprs@.len());
                lemma_register_all_len(start, declared_upto(es, i as nat));
                lemma_register_all_concat(start, declared_upto(es, i as nat), declared(es[i as int]));
                lemma_register_all_concat(
                    start,
                    declared_upto(es, (i + 1) as nat),
                    declared_from(es, (i + 1) as nat),
                );
                lemma_declared_split(es, (i + 1) as nat);
            }
            assert(decreases_to!(*exprs => exprs[i as int]));
            match Self::visit_expr(&exprs[i], registry) {
                Ok(()) => {},
                Err(e) => {
                    return Err(e);
                },
            }
            i += 1;
        }
        Ok(())
    }

    fn visit_expr(expr: &Expr, registry: &mut GroupRegistry) -> (r: Result<(), GroupRegistryError>)
        requires
            old(registry).wf(),
            old(registry)@.len() + declared(expr@).len() <= GroupRegistry::capacity(),
        ensures
            final(registry).wf(),
            final(registry)@ == register_all(old(registry)@, declared(expr@)).0,
            match register_all(old(registry)@, declared(expr@)).1 {
                Some(name) => r is Err && r->Err_0@ == GroupRegistryErrorView::DuplicateGroupName(
                    name,
                ),
                None => r is Ok,
            },
            names_unique(old(registry)@) ==> names_unique(final(registry)@),
        decreases expr, 0nat,
    {
        match expr {
            Expr::Sequence(exprs) => {
                assert(declared(expr@) == declared_upto(expr_views(*exprs), exprs@.len())) by {
                    lemma_expr_views(*exprs);
                }
                Self::visit_all(exprs, registry)
            },
            Expr::Alternation(exprs) => {
                assert(declared(expr@) == declared_upto(expr_views(*exprs), exprs@.len())) by {
                    lemma_expr_views(*exprs);
                }
                Self::visit_all(exprs, registry)
            },
            Expr::Quantified { expr: inner, quantifier } => {
                assert(declared(expr@) == declared(inner@));
                Self::visit_expr(inner, registry)
            },
            Expr::Group(inner) => {
                let ghost rest = declared(inner@);
                assert(declared(expr@) == seq![None::<Seq<char>>] + rest);
                assert((seq![None::<Seq<char>>] + rest).drop_first() =~= rest);
                match registry.register_group(None) {
                    Ok(_) => Self::visit_expr(inner, registry),
                    Err(e) => Err(e),
                }
            },
            Expr::NonCapturingGroup(inner) => {
                assert(declared(expr@) == declared(inner@));
                Self::visit_expr(inner, registry)
            },
            Expr::NamedGroup { name, pattern } => {
                let ghost rest = declared(pattern@);
                assert(declared(expr@) == seq![Some(name@)] + rest);
                assert((seq![Some(name@)] + rest).drop_first() =~= rest);
                match registry.register_group(Some(name.clone())) {
                    Ok(_) => Self::visit_expr(pattern, registry),
                    Err(e) => Err(e),
                }
            },
            Expr::AtomicGroup(inner) => {
                assert(declared(expr@) == declared(inner@));
                Self::visit_expr(inner, registry)
            },
            _ => {
                assert(declared(expr@) =~= Names::empty());
                Ok(())
            },
        }
    }
}

impl GroupCollector {
    /// The number of groups that `expr` declares added to `count`, or `None`
    /// if that is above `limit`.
    pub fn count(expr: &Expr, count: usize, limit: usize) -> (r: Option<usize>)
        requires
            count <= limit,
        ensures
            r == if count + declared(expr@).len() <= limit {
                Some((count + declared(expr@).len()) as usize)
            } else {
                None
            },
        decreases expr, 0nat,
    {
        match expr {
            Expr::Sequence(exprs) => {
                assert(declared(expr@) == declared_upto(expr_views(*exprs), exprs@.len())) by {
                    lemma_expr_views(*exprs);
                }
                Self::count_all(exprs, count, limit)
            },
            Expr::Alternation(exprs) => {
                assert(declared(expr@) == declared_upto(expr_views(*exprs), exprs@.len())) by {
                    lemma_expr_views(*exprs);
                }
                Self::count_all(exprs, count, limit)
            },
            Expr::Quantified { expr: inner, quantifier } => {
                assert(declared(expr@) == declared(inner@));
                Self::count(inner, count, limit)
            },
            Expr::Group(inner) => {
                assert(declared(expr@) == seq![None::<Seq<char>>] + declared(inner@));
                if count < limit {
                    Self::count(inner, count + 1, limit)
                } else {
                    None
                }
            },
            Expr::NonCapturingGroup(inner) => {
                assert(declared(expr@) == declared(inner@));
                Self::count(inner, count, limit)
            },
            Expr::NamedGroup { name, pattern } => {
                assert(declared(expr@) == seq![Some(name@)] + declared(pattern@));
                if count < limit {
                    Self::count(pattern, count + 1, limit)
                } else {
                    None
                }
            },
            Expr::AtomicGroup(inner) => {
                assert(declared(expr@) == declared(inner@));
                Self::count(inner, count, limit)
            },
            _ => {
                assert(declared(expr@) =~= Names::empty());
                Some(count)
            },
        }
    }

    fn count_all(exprs: &Vec<Expr>, count: usize, limit: usize) -> (r: Option<usize>)
        requires
            count <= limit,
        ensures
            r == if count + declared_upto(expr_views(*exprs), exprs@.len()).len() <= limit {
                Some((count + declared_upto(expr_views(*exprs), exprs@.len()).len()) as usize)
            } else {
                None
            },
        decreases exprs, 1nat,
    {
        let ghost es = expr_views(*exprs);
        proof {
            lemma_expr_views(*exprs);
        }
        let mut total = count;
        let mut i: usize = 0;
        while i < exprs.len()
            invariant
                i <= exprs@.len(),
                es == expr_views(*exprs),
                es.len() == exprs@.len(),
                forall|j: int| 0 <= j < exprs@.len() ==> es[j] == (#[trigger] exprs@[j])@,
                total == count + declared_upto(es, i as nat).len(),
                total <= limit,
            decreases exprs@.len() - i,
        {
            proof {
                lemma_declared_upto_grows(es, (i + 1) as nat, exprs@.len());
            }
            assert(decreases_to!(*exprs => exprs[i as int]));
            match Self::count(&exprs[i], total, limit) {
                Some(more) => {
                    total = more;
                },
                None => {
                    return None;
                },
            }
            i += 1;
        }
        Some(total)
    }

    /// Enters the groups of `expr` into `registry` in the order in which
    /// they open, whatever their names.
    pub(crate) fn declare_all(expr: &Expr, registry: &mut GroupRegistry)
        requires
            old(registry).wf(),
            old(registry)@.len() + declared(expr@).len() <= GroupRegistry::capacity(),
        ensures
            final(registry).wf(),
            final(registry)@ == old(registry)@ + declared(expr@),
        decreases expr, 0nat,
    {
        match expr {
            Expr::Sequence(exprs) => {
                assert(declared(expr@) == declared_upto(expr_views(*exprs), exprs@.len())) by {
                    lemma_expr_views(*exprs);
                }
                Self::declare_each(exprs, registry)
            },
            Expr::Alternation(exprs) => {
                assert(declared(expr@) == declared_upto(expr_views(*exprs), exprs@.len())) by {
                    lemma_expr_views(*exprs);
                }
                Self::declare_each(exprs, registry)
            },
            Expr::Quantified { expr: inner, quantifier } => {
                assert(declared(expr@) == declared(inner@));
                Self::declare_all(inner, registry)
            },
            Expr::Group(inner) => {
                assert(declared(expr@) == seq![None::<Seq<char>>] + declared(inner@));
                registry.declare(None);
                Self::declare_all(inner, registry);
                assert(registry@ =~= old(registry)@ + declared(expr@));
            },
            Expr::NonCapturingGroup(inner) => {
                assert(declared(expr@) == declared(inner@));
                Self::declare_all(inner, registry)
            },
            Expr::NamedGroup { name, pattern } => {
                assert(declared(expr@) == seq![Some(name@)] + declared(pattern@));
                registry.declare(Some(name.clone()));
                Self::declare_all(pattern, registry);
                assert(registry@ =~= old(registry)@ + declared(expr@));
            },
            Expr::AtomicGroup(inner) => {
                assert(declared(expr@) == declared(inner@));
                Self::declare_all(inner, registry)
            },
            _ => {
                assert(declared(expr@) =~= Names::empty());
                assert(registry@ =~= old(registry)@ + declared(expr@));
            },
        }
    }

    fn declare_each(exprs: &Vec<Expr>, registry: &mut GroupRegistry)
        requires
            old(registry).wf(),
            old(registry)@.len() + declared_upto(expr_views(*exprs), exprs@.len()).len()
                <= GroupRegistry::capacity(),
        ensures
            final(registry).wf(),
            final(registry)@ == old(registry)@ + declared_upto(expr_views(*exprs), exprs@.len()),
        decreases exprs, 1nat,
    {
        let ghost es = expr_views(*exprs);
        proof {
            lemma_expr_views(*exprs);
        }
        let mut i: usize = 0;
        assert(registry@ =~= old(registry)@ + declared_upto(es, 0));
        while i < exprs.len()
            invariant
                i <= exprs@.len(),
                es == expr_views(*exprs),
                es.len() == exprs@.len(),
                forall|j: int| 0 <= j < exprs@.len() ==> es[j] == (#[trigger] exprs@[j])@,
                registry.wf(),
                old(registry)@.len() + declared_upto(es, exprs@.len()).len()
                    <= GroupRegistry::capacity(),
                registry@ == old(registry)@ + declared_upto(es, i as nat),
            decreases exprs@.len() - i,
        {
            proof {
                lemma_declared_upto_grows(es, (i + 1) as nat, exprs@.len());
            }
            assert(decreases_to!(*exprs => exprs[i as int]));
            Self::declare_all(&exprs[i], registry);
            assert(registry@ =~= old(registry)@ + declared_upto(es, (i + 1) as nat));
            i += 1;
        }
    }
}

/// The names of the groups that the expressions of `es` from place `n` on
/// declare.
pub open spec fn declared_from(es: Seq<ExprView>, n: nat) -> Names
    decreases es.len() - n,
{
    if n >= es.len() {
        Seq::empty()
    } else {
        declared(es[n as int]) + declared_from(es, n + 1)
    }
}

pub proof fn lemma_declared_split(es: Seq<ExprView>, n: nat)
    requires
        n <= es.len(),
    ensures
        declared_upto(es, es.len()) == declared_upto(es, n) + declared_from(es, n),
    decreases es.len() - n,
{
    if n < es.len() {
        lemma_declared_split(es, n + 1);
        assert(declared_upto(es, n + 1) == declared_upto(es, n) + declared(es[n as int]));
        assert(declared_upto(es, n) + (declared(es[n as int]) + declared_from(es, n + 1))
            =~= (declared_upto(es, n) + declared(es[n as int])) + declared_from(es, n + 1));
    } else {
        assert(declared_upto(es, n) + declared_from(es, n) =~= declared_upto(es, n));
    }
}

pub proof fn lemma_declared_upto_grows(es: Seq<ExprView>, n: nat, m: nat)
    requires
        n <= m <= es.len(),
    ensures
        declared_upto(es, n).len() <= declared_upto(es, m).len(),
    decreases m - n,
{
    if n < m {
        lemma_declared_upto_grows(es, n, (m - 1) as nat);
    }
}

} // verus!
