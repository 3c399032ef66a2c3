use vstd::prelude::*;

verus! {

/// A resource that releases what it holds when its manager lets it go.
pub trait ResourceDestroy {
    fn destroy(&mut self);
}

/// A frame buffer; it holds nothing yet, so releasing it does nothing.
pub struct Framebuffer {}

impl ResourceDestroy for Framebuffer {
    fn destroy(&mut self) {
    }
}

/// Named resources of one kind, each name once.
pub struct ResourceManager<T: ResourceDestroy> {
    resource_type_name: String,
    registries: Vec<(String, T)>,
}

/// The position of the first entry named `name`, or -1.
pub open spec fn name_position<T>(entries: Seq<(Seq<char>, T)>, name: Seq<char>) -> int
    decreases entries.len(),
{
    if entries.len() == 0 {
        -1
    } else {
        let p = name_position(entries.drop_last(), name);
        if p >= 0 {
            p
        } else if entries.last().0 == name {
            entries.len() - 1
        } else {
            -1
        }
    }
}

pub proof fn lemma_name_position<T>(entries: Seq<(Seq<char>, T)>, name: Seq<char>)
    ensures
        -1 <= name_position(entries, name) < entries.len(),
        name_position(entries, name) >= 0 ==> entries[name_position(entries, name)].0 == name,
        name_position(entries, name) >= 0 ==> forall|i: int|
            0 <= i < name_position(entries, name) ==> #[trigger] entries[i].0 != name,
        name_position(entries, name) < 0 ==> forall|i: int|
            0 <= i < entries.len() ==> #[trigger] entries[i].0 != name,
    decreases entries.len(),
{
    if entries.len() > 0 {
        let d = entries.drop_last();
        lemma_name_position(d, name);
        let p = name_position(entries, name);
        if name_position(d, name) >= 0 {
            assert forall|i: int| 0 <= i < p implies #[trigger] entries[i].0 != name by {
                assert(entries[i] == d[i]);
            }
        } else {
            assert forall|i: int| 0 <= i < entries.len() - 1 implies #[trigger] entries[i].0
                != name by {
                assert(entries[i] == d[i]);
            }
        }
    }
}

impl<T: ResourceDestroy> ResourceManager<T> {
    /// The registered resources, by name, in the order they were added.
    pub closed spec fn entries(&self) -> Seq<(Seq<char>, T)> {
        self.registries@.map_values(|e: (String, T)| (e.0@, e.1))
    }

    pub closed spec fn name(&self) -> Seq<char> {
        self.resource_type_name@
    }

    pub fn new(resource_type_name: &str) -> (r: Self)
        ensures
            r.name() == resource_type_name@,
            r.entries() == Seq::<(Seq<char>, T)>::empty(),
    {
        let r = ResourceManager {
            resource_type_name: resource_type_name.to_owned(),
            registries: Vec::new(),
        };
        proof {
            assert(r.entries() =~= Seq::<(Seq<char>, T)>::empty());
        }
        r
    }

    fn find(&self, name: &str) -> (r: Option<usize>)
        ensures
            match r {
                Some(i) => i == name_position(self.entries(), name@) && i
                    < self.registries@.len(),
                None => name_position(self.entries(), name@) < 0,
            },
            self.entries().len() == self.registries@.len(),
    {
        let key = name.to_owned();
        proof {
            lemma_name_position(self.entries(), name@);
        }
        let mut i: usize = 0;
        while i < self.registries.len()
            invariant
                i <= self.registries@.len(),
                self.entries().len() == self.registries@.len(),
                key@ == name@,
                forall|j: int| 0 <= j < i ==> #[trigger] self.entries()[j].0 != name@,
                -1 <= name_position(self.entries(), name@) < self.entries().len(),
                name_position(self.entries(), name@) >= 0 ==> self.entries()[name_position(
                    self.entries(),
                    name@,
                )].0 == name@,
                name_position(self.entries(), name@) >= 0 ==> forall|j: int|
                    0 <= j < name_position(self.entries(), name@) ==> #[trigger] self.entries()[j].0
                        != name@,
                name_position(self.entries(), name@) < 0 ==> forall|j: int|
                    0 <= j < self.entries().len() ==> #[trigger] self.entries()[j].0 != name@,
            decreases self.registries@.len() - i,
        {
            if self.registries[i].0 == key {
                proof {
                    assert(self.entries()[i as int].0 == name@);
                    let kp = name_position(self.entries(), name@);
                    if kp >= 0 {
                        if kp < i {
                            assert(self.entries()[kp].0 != name@);
                        }
                        if kp > i {
                            assert(self.entries()[i as int].0 != name@);
                        }
                    } else {
                        assert(self.entries()[i as int].0 != name@);
                    }
                }
                return Some(i);
            }
            i = i + 1;
        }
        None
    }

    /// Registers `registry` under `name`, in place of one already there.
    pub fn add_registry(&mut self, name: &str, registry: T)
        ensures
            final(self).name() == old(self).name(),
            name_position(old(self).entries(), name@) >= 0 ==> final(self).entries() == old(
                self,
            ).entries().update(name_position(old(self).entries(), name@), (name@, registry)),
            name_position(old(self).entries(), name@) < 0 ==> final(self).entries() == old(
                self,
            ).entries().push((name@, registry)),
    {
        match self.find(name) {
            Some(i) => {
                self.registries.set(i, (name.to_owned(), registry));
                proof {
                    assert(self.entries() =~= old(self).entries().update(i as int, (name@, registry)));
                }
            },
            None => {
                self.registries.push((name.to_owned(), registry));
                proof {
                    assert(self.entries() =~= old(self).entries().push((name@, registry)));
                }
            },
        }
    }

    /// The resource registered under `name`.
    pub fn get_registry(&self, name: &str) -> (r: Option<&T>)
        ensures
            name_position(self.entries(), name@) >= 0 ==> r == Some(
                &self.entries()[name_position(self.entries(), name@)].1,
            ),
            name_position(self.entries(), name@) < 0 ==> r is None,
    {
        match self.find(name) {
            Some(i) => Some(&self.registries[i].1),
            None => None,
        }
    }

    /// The kind of resource this manager holds.
    pub fn get_name(&self) -> (r: &str)
        ensures
            r@ == self.name(),
    {
        self.resource_type_name.as_str()
    }

    /// Releases every registered resource, in order.
    pub fn destroy_all(&mut self)
        ensures
            final(self).name() == old(self).name(),
            final(self).entries().len() == old(self).entries().len(),
            forall|i: int|
                0 <= i < old(self).entries().len() ==> #[trigger] final(self).entries()[i].0 == old(
                    self,
                ).entries()[i].0,
    {
        let n = self.registries.len();
        let mut i: usize = 0;
        while i < n
            invariant
                n == self.registries@.len(),
                n == old(self).registries@.len(),
                i <= n,
                self.resource_type_name == old(self).resource_type_name,
                forall|j: int|
                    0 <= j < n ==> #[trigger] self.registries@[j].0 == old(self).registries@[j].0,
            decreases n - i,
        {
            let mut entry = self.registries.remove(i);
            entry.1.destroy();
            self.registries.insert(i, entry);
            proof {
                assert forall|j: int| 0 <= j < n implies #[trigger] self.registries@[j].0 == old(
                    self,
                ).registries@[j].0 by {}
            }
            i = i + 1;
        }
    }
}

} // verus!
