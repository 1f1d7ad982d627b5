use vstd::prelude::*;
use crate::tree::{has_text, views};

verus! {

/// A plugin as the registry knows it: its name, the datatypes it declares it
/// can consume, and a help line.
pub struct PluginDescriptor {
    pub name: String,
    pub datatypes: Vec<String>,
    pub help: String,
}

/// Errors of registry lookups.
#[derive(Debug, PartialEq, Eq, Structural, Clone, Copy)]
pub enum RegistryError {
    NotFound,
}

/// Catalogue of plugins in registration order, one per name.
pub struct Registry {
    pub(crate) plugins: Vec<PluginDescriptor>,
}

pub open spec fn name_views(ps: Seq<PluginDescriptor>) -> Seq<Seq<char>> {
    ps.map_values(|d: PluginDescriptor| d.name@)
}

/// Names, in order, of the first `k` descriptors whose declared datatypes hold `tag`.
pub open spec fn capable_upto(ps: Seq<PluginDescriptor>, tag: Seq<char>, k: int) -> Seq<Seq<char>>
    decreases k,
{
    if k <= 0 {
        seq![]
    } else {
        let before = capable_upto(ps, tag, k - 1);
        if views(ps[k - 1].datatypes@).contains(tag) {
            before.push(ps[k - 1].name@)
        } else {
            before
        }
    }
}

/// The (name, help) pairs of the first `k` descriptors, leaving out the
/// bootstrap plugin `local`.
pub open spec fn listed_upto(ps: Seq<PluginDescriptor>, k: int) -> Seq<(Seq<char>, Seq<char>)>
    decreases k,
{
    if k <= 0 {
        seq![]
    } else {
        let before = listed_upto(ps, k - 1);
        if ps[k - 1].name@ == "local"@ {
            before
        } else {
            before.push((ps[k - 1].name@, ps[k - 1].help@))
        }
    }
}

pub open spec fn pair_views(v: Seq<(String, String)>) -> Seq<(Seq<char>, Seq<char>)> {
    v.map_values(|p: (String, String)| (p.0@, p.1@))
}

/// Compares two strings character by character.
pub fn same_text(a: &String, b: &String) -> (r: bool)
    ensures
        r == (a@ == b@),
{
    a.eq(b)
}

impl Registry {
    /// The descriptors in registration order.
    pub closed spec fn descriptors(&self) -> Seq<PluginDescriptor> {
        self.plugins@
    }

    pub open spec fn names(&self) -> Seq<Seq<char>> {
        name_views(self.descriptors())
    }

    pub open spec fn wf(&self) -> bool {
        self.names().no_duplicates()
    }

    pub open spec fn is_registered(&self, name: Seq<char>) -> bool {
        self.names().contains(name)
    }

    /// Names of the plugins declaring `tag`, in registration order.
    pub open spec fn capable(&self, tag: Seq<char>) -> Seq<Seq<char>> {
        capable_upto(self.descriptors(), tag, self.descriptors().len() as int)
    }

    /// An empty registry.
    pub fn new() -> (r: Registry)
        ensures
            r.wf(),
            r.descriptors().len() == 0,
    {
        let r = Registry { plugins: Vec::new() };
        proof {
            assert(r.names() =~= seq![]);
        }
        r
    }

    /// Index of the descriptor named `name`, if any.
    pub fn position(&self, name: &String) -> (r: Option<usize>)
        ensures
            r.is_none() <==> !self.is_registered(name@),
            r.is_some() ==> r.unwrap() < self.descriptors().len()
                && self.descriptors()[r.unwrap() as int].name@ == name@,
    {
        let mut i: usize = 0;
        while i < self.plugins.len()
            invariant
                i <= self.plugins@.len(),
                forall|j: int| 0 <= j < i ==> self.plugins@[j].name@ != name@,
            decreases self.plugins@.len() - i,
        {
            if same_text(&self.plugins[i].name, name) {
                assert(self.names()[i as int] == name@);
                return Some(i);
            }
            i = i + 1;
        }
        proof {
            if self.is_registered(name@) {
                let j = choose|j: int| 0 <= j < self.names().len() && self.names()[j] == name@;
                assert(self.plugins@[j].name@ == name@);
            }
        }
        None
    }

    /// Registers `d`; a descriptor of the same name is replaced in its place.
    pub fn register(&mut self, d: PluginDescriptor)
        requires
            old(self).wf(),
        ensures
            final(self).wf(),
            old(self).is_registered(d.name@) ==> exists|i: int|
                0 <= i < old(self).descriptors().len() && old(self).descriptors()[i].name@ == d.name@
                    && final(self).descriptors() == old(self).descriptors().update(i, d),
            !old(self).is_registered(d.name@) ==> final(self).descriptors()
                == old(self).descriptors().push(d),
    {
        match self.position(&d.name) {
            Some(i) => {
                self.plugins.set(i, d);
                proof {
                    let o = old(self).names();
                    assert(self.names() =~= o.update(i as int, o[i as int]));
                }
            },
            None => {
                self.plugins.push(d);
                proof {
                    assert(self.names() =~= old(self).names().push(d.name@));
                }
            },
        }
    }

    /// Whether a plugin named `name` is registered.
    pub fn contains(&self, name: &String) -> (r: bool)
        ensures
            r == self.is_registered(name@),
    {
        self.position(name).is_some()
    }

    /// The descriptor named `name`.
    pub fn lookup(&self, name: &String) -> (r: Result<&PluginDescriptor, RegistryError>)
        requires
            self.wf(),
        ensures
            r.is_err() <==> !self.is_registered(name@),
            r.is_ok() ==> r.unwrap().name@ == name@ && self.descriptors().contains(*r.unwrap()),
    {
        match self.position(name) {
            Some(i) => Ok(&self.plugins[i]),
            None => Err(RegistryError::NotFound),
        }
    }

    /// All descriptors in registration order.
    pub fn iterate(&self) -> (r: &Vec<PluginDescriptor>)
        ensures
            r@ == self.descriptors(),
    {
        &self.plugins
    }

    /// The (name, help) pairs to list, in registration order, without `local`.
    pub fn listing(&self) -> (r: Vec<(String, String)>)
        ensures
            pair_views(r@) == listed_upto(self.descriptors(), self.descriptors().len() as int),
    {
        let local = "local".to_owned();
        let mut r: Vec<(String, String)> = Vec::new();
        let mut i: usize = 0;
        while i < self.plugins.len()
            invariant
                local@ == "local"@,
                i <= self.plugins@.len(),
                pair_views(r@) == listed_upto(self.plugins@, i as int),
            decreases self.plugins@.len() - i,
        {
            let d = &self.plugins[i];
            if !same_text(&d.name, &local) {
                let ghost before = r@;
                r.push((d.name.clone(), d.help.clone()));
                proof {
                    assert(pair_views(r@) =~= pair_views(before).push((d.name@, d.help@)));
                }
            }
            i = i + 1;
        }
        r
    }

    /// Names of the plugins whose declared datatypes hold `tag`, in registration order.
    pub fn capability_match(&self, tag: &String) -> (r: Vec<String>)
        ensures
            views(r@) == self.capable(tag@),
    {
        let mut r: Vec<String> = Vec::new();
        let mut i: usize = 0;
        while i < self.plugins.len()
            invariant
                i <= self.plugins@.len(),
                views(r@) == capable_upto(self.plugins@, tag@, i as int),
            decreases self.plugins@.len() - i,
        {
            let ghost before = r@;
            if has_text(&self.plugins[i].datatypes, tag) {
                r.push(self.plugins[i].name.clone());
                proof {
                    assert(views(r@) =~= views(before).push(self.plugins@[i as int].name@));
                }
            }
            i = i + 1;
        }
        r
    }
}

} // verus!
