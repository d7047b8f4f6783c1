//! A named bundle of program configurations.
use vstd::prelude::*;
use crate::text::same_text;
use crate::task_master::process::{Config, ConfigView};

verus! {

/// A service is a list of process bundled together. This allows
/// us to call operations on a group of process rather than
/// process 1 by 1.
#[derive(Debug)]
pub struct Service {
    pub name: String,
    process_list: Vec<(String, Config)>,
}

pub struct ServiceView {
    pub name: Seq<char>,
    pub process_list: Seq<(Seq<char>, ConfigView)>,
}

impl View for Service {
    type V = ServiceView;

    closed spec fn view(&self) -> ServiceView {
        ServiceView {
            name: self.name@,
            process_list: self.process_list@.map_values(|e: (String, Config)| (e.0@, e.1@)),
        }
    }
}

/// The configuration stored under `key`: the first entry with that name.
pub open spec fn lookup(list: Seq<(Seq<char>, ConfigView)>, key: Seq<char>) -> Option<ConfigView>
    decreases list.len(),
{
    if list.len() == 0 {
        None
    } else if list[0].0 == key {
        Some(list[0].1)
    } else {
        lookup(list.drop_first(), key)
    }
}

impl Service {
    /// Initialize a new service with name 'name' and no process.
    pub fn new(name: String) -> (s: Service)
        ensures
            s@.name == name@,
            s@.process_list == Seq::<(Seq<char>, ConfigView)>::empty(),
    {
        let s = Service { name, process_list: Vec::new() };
        proof {
            assert(s@.process_list =~= Seq::<(Seq<char>, ConfigView)>::empty());
        }
        s
    }

    /// The configuration of the process named `key`, if the service holds one.
    pub fn get(&self, key: &str) -> (r: Option<&Config>)
        ensures
            match r {
                Some(c) => lookup(self@.process_list, key@) == Some(c@),
                None => lookup(self@.process_list, key@) is None,
            },
    {
        let ghost l = self@.process_list;
        let n = self.process_list.len();
        let mut i: usize = 0;
        proof {
            assert(l.skip(0) =~= l);
        }
        while i < n
            invariant
                n == self.process_list.len(),
                i <= n,
                l == self@.process_list,
                l.len() == n,
                lookup(l, key@) == lookup(l.skip(i as int), key@),
            decreases n - i,
        {
            proof {
                assert(l.skip(i as int)[0] == l[i as int]);
                assert(l.skip(i as int).drop_first() =~= l.skip(i + 1));
                assert(l[i as int] == (self.process_list[i as int].0@, self.process_list[i as int].1@));
            }
            if same_text(self.process_list[i].0.as_str(), key) {
                return Some(&self.process_list[i].1);
            }
            i = i + 1;
        }
        proof {
            assert(l.skip(n as int) =~= Seq::<(Seq<char>, ConfigView)>::empty());
        }
        None
    }
}

} // verus!
