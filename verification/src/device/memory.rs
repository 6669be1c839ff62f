//! A byte-addressed memory cell device.
//!
//! Inputs: `ra` (read address), `we` (write enable), `wa` (write address)
//! and `wv` (write value). Output: `rv` (read value), which depends only on
//! `ra` and resolves to the stored value at that address, with unwritten
//! addresses reading as zero. `tick` commits a write when `we` is nonzero.

use std::collections::HashMap;
use vstd::prelude::*;

use crate::device::{
    distinct_keys, lemma_pairs_to_map, names_view, pairs_to_map, pairs_view, Device, DeviceError,
};

verus! {

broadcast use vstd::std_specs::hash::group_hash_axioms;

/// What a stored map reads at an address: the stored value, or zero for an
/// address that was never written.
pub open spec fn read_spec(d: Map<u32, u32>, a: u32) -> u32 {
    if d.dom().contains(a) {
        d[a]
    } else {
        0
    }
}

/// A memory cell device.
pub struct Memory {
    /// The stored cells, keyed by address; absent addresses read as zero.
    pub data: HashMap<u32, u32>,
    specified_ra: Option<u32>,
    specified_we: Option<u32>,
    specified_wa: Option<u32>,
    specified_wv: Option<u32>,
}

/// The four input port names and the output port name are pairwise
/// distinct.
proof fn lemma_port_names_distinct()
    ensures
        "ra"@ != "we"@,
        "ra"@ != "wa"@,
        "ra"@ != "wv"@,
        "ra"@ != "rv"@,
        "we"@ != "wa"@,
        "we"@ != "wv"@,
        "we"@ != "rv"@,
        "wa"@ != "wv"@,
        "wa"@ != "rv"@,
        "wv"@ != "rv"@,
{
    reveal_strlit("ra");
    reveal_strlit("we");
    reveal_strlit("wa");
    reveal_strlit("wv");
    reveal_strlit("rv");
    assert("ra"@[0] == 'r' && "ra"@[1] == 'a');
    assert("we"@[0] == 'w' && "we"@[1] == 'e');
    assert("wa"@[0] == 'w' && "wa"@[1] == 'a');
    assert("wv"@[0] == 'w' && "wv"@[1] == 'v');
    assert("rv"@[0] == 'r' && "rv"@[1] == 'v');
}

impl Memory {
    /// The stored cells, as a map from address to value.
    pub closed spec fn stored_spec(&self) -> Map<u32, u32> {
        self.data@
    }

    /// An empty memory: nothing stored, nothing supplied.
    pub fn new() -> (r: Memory)
        ensures
            r.wf(),
            r.stored_spec() == Map::<u32, u32>::empty(),
            r.supplied() == Map::<Seq<char>, u32>::empty(),
    {
        let r = Memory {
            data: HashMap::new(),
            specified_ra: None,
            specified_we: None,
            specified_wa: None,
            specified_wv: None,
        };
        proof {
            assert(r.supplied() =~= Map::<Seq<char>, u32>::empty());
        }
        r
    }

    /// Whether the name is one of the four input ports.
    fn is_input_name(port: &String) -> (b: bool)
        ensures
            b <==> (port@ == "ra"@ || port@ == "we"@ || port@ == "wa"@ || port@ == "wv"@),
    {
        *port == "ra".to_owned() || *port == "we".to_owned() || *port == "wa".to_owned() || *port
            == "wv".to_owned()
    }
}

/// Law: the port declaration of a memory cell — four inputs, one output,
/// and the read value depends on the read address alone.
pub proof fn lemma_memory_ports(m: Memory)
    ensures
        m.inputs() == Set::empty().insert("ra"@).insert("we"@).insert("wa"@).insert("wv"@),
        m.outputs() == Set::empty().insert("rv"@),
        m.deps_of("rv"@) == Set::empty().insert("ra"@),
{
}

/// Law: under any supplied map, the read value resolves exactly when the
/// read address was supplied, to the stored value at that address, with
/// unwritten addresses reading as zero.
pub proof fn lemma_memory_read(m: Memory, s: Map<Seq<char>, u32>)
    ensures
        m.value_of(s, "rv"@) == if s.dom().contains("ra"@) {
            Some(read_spec(m.stored_spec(), s["ra"@]))
        } else {
            None
        },
{
}

/// Law: a tick commits exactly when write-enable was supplied and, if it is
/// nonzero, the write address and write value were supplied as well; so a
/// zero write-enable allows the tick with the write fields unsupplied.
pub proof fn lemma_memory_can_step(m: Memory)
    ensures
        m.can_step() == (m.supplied().dom().contains("we"@) && (m.supplied()["we"@] != 0
            ==> m.supplied().dom().contains("wa"@) && m.supplied().dom().contains("wv"@))),
{
    lemma_port_names_distinct();
}

/// Law: a committed tick stores the write value at the write address when
/// write-enable is nonzero, stores nothing when it is zero, and clears the
/// per-tick values either way.
pub proof fn lemma_memory_step(m: Memory, post: Memory)
    requires
        m.can_step(),
        m.step_rel(post),
    ensures
        post.stored_spec() == if m.supplied()["we"@] != 0 {
            m.stored_spec().insert(m.supplied()["wa"@], m.supplied()["wv"@])
        } else {
            m.stored_spec()
        },
        post.supplied() == Map::<Seq<char>, u32>::empty(),
{
    lemma_port_names_distinct();
    assert(post.supplied() =~= Map::<Seq<char>, u32>::empty());
}

impl Device for Memory {
    closed spec fn inputs(&self) -> Set<Seq<char>> {
        Set::empty().insert("ra"@).insert("we"@).insert("wa"@).insert("wv"@)
    }

    closed spec fn outputs(&self) -> Set<Seq<char>> {
        Set::empty().insert("rv"@)
    }

    closed spec fn deps_of(&self, output: Seq<char>) -> Set<Seq<char>> {
        if output == "rv"@ {
            Set::empty().insert("ra"@)
        } else {
            Set::empty()
        }
    }

    closed spec fn supplied(&self) -> Map<Seq<char>, u32> {
        let m = Map::<Seq<char>, u32>::empty();
        let m = if self.specified_ra is Some {
            m.insert("ra"@, self.specified_ra->0)
        } else {
            m
        };
        let m = if self.specified_we is Some {
            m.insert("we"@, self.specified_we->0)
        } else {
            m
        };
        let m = if self.specified_wa is Some {
            m.insert("wa"@, self.specified_wa->0)
        } else {
            m
        };
        if self.specified_wv is Some {
            m.insert("wv"@, self.specified_wv->0)
        } else {
            m
        }
    }

    closed spec fn value_of(&self, m: Map<Seq<char>, u32>, output: Seq<char>) -> Option<u32> {
        if output == "rv"@ {
            if m.dom().contains("ra"@) {
                Some(read_spec(self.data@, m["ra"@]))
            } else {
                None
            }
        } else {
            None
        }
    }

    closed spec fn with_supplied(&self, m: Map<Seq<char>, u32>) -> Memory {
        Memory {
            data: self.data,
            specified_ra: if m.dom().contains("ra"@) {
                Some(m["ra"@])
            } else {
                None
            },
            specified_we: if m.dom().contains("we"@) {
                Some(m["we"@])
            } else {
                None
            },
            specified_wa: if m.dom().contains("wa"@) {
                Some(m["wa"@])
            } else {
                None
            },
            specified_wv: if m.dom().contains("wv"@) {
                Some(m["wv"@])
            } else {
                None
            },
        }
    }

    closed spec fn step_rel(&self, post: Memory) -> bool {
        &&& post.specified_ra is None
        &&& post.specified_we is None
        &&& post.specified_wa is None
        &&& post.specified_wv is None
        &&& post.data@ == if self.specified_we is Some && self.specified_we->0 != 0 {
            self.data@.insert(self.specified_wa->0, self.specified_wv->0)
        } else {
            self.data@
        }
    }

    closed spec fn can_step(&self) -> bool {
        &&& self.specified_we is Some
        &&& self.specified_we->0 != 0 ==> self.specified_wa is Some && self.specified_wv is Some
    }

    closed spec fn batch_ok(&self, s: Seq<(Seq<char>, u32)>) -> bool {
        distinct_keys(s) && forall|i: int|
            0 <= i < s.len() ==> self.inputs().contains((#[trigger] s[i]).0)
                && !self.supplied().dom().contains(s[i].0)
    }

    closed spec fn wf(&self) -> bool {
        true
    }

    proof fn lemma_wf(&self) {
        lemma_port_names_distinct();
        assert forall|k: Seq<char>| self.supplied().dom().contains(k) implies self.inputs(
        ).contains(k) by {}
    }

    proof fn lemma_value_determined(
        &self,
        m1: Map<Seq<char>, u32>,
        m2: Map<Seq<char>, u32>,
        output: Seq<char>,
    ) {
        assert(self.deps_of(output).contains("ra"@));
        assert(m1.dom().contains("ra"@));
    }

    proof fn lemma_with_supplied(&self, m: Map<Seq<char>, u32>) {
        lemma_port_names_distinct();
        assert(self.with_supplied(m).supplied() =~= m);
        assert(self.with_supplied(self.supplied()) == *self);
        assert forall|m2: Map<Seq<char>, u32>|
            m2.dom().subset_of(self.inputs()) implies #[trigger] self.with_supplied(
            m,
        ).with_supplied(m2) == self.with_supplied(m2) by {}
    }

    proof fn lemma_stepped(&self, post: Memory) {
        lemma_port_names_distinct();
        assert(post.supplied() =~= Map::<Seq<char>, u32>::empty());
    }

    proof fn lemma_all_inputs_step(&self) {
        lemma_port_names_distinct();
        assert(self.inputs().contains("we"@));
        assert(self.supplied().dom().contains("we"@));
        assert(self.supplied().dom().contains("wa"@));
        assert(self.supplied().dom().contains("wv"@));
    }

    fn get_input_ports(&self) -> (r: Vec<String>) {
        let mut r: Vec<String> = Vec::new();
        r.push("ra".to_owned());
        r.push("we".to_owned());
        r.push("wa".to_owned());
        r.push("wv".to_owned());
        proof {
            lemma_port_names_distinct();
            assert(names_view(r@)[0] == "ra"@ && names_view(r@)[1] == "we"@ && names_view(r@)[2]
                == "wa"@ && names_view(r@)[3] == "wv"@);
            assert(names_view(r@).to_set() =~= self.inputs());
        }
        r
    }

    fn get_output_ports(&self) -> (r: Vec<String>) {
        let mut r: Vec<String> = Vec::new();
        r.push("rv".to_owned());
        proof {
            assert(names_view(r@)[0] == "rv"@);
            assert(names_view(r@).to_set() =~= self.outputs());
        }
        r
    }

    fn get_output_dependencies(&self, output: &String) -> (r: Result<Vec<String>, DeviceError>) {
        proof {
            lemma_port_names_distinct();
        }
        if *output == "rv".to_owned() {
            let mut d: Vec<String> = Vec::new();
            d.push("ra".to_owned());
            proof {
                assert(names_view(d@)[0] == "ra"@);
                assert(names_view(d@).to_set() =~= self.deps_of(output@));
            }
            Ok(d)
        } else if Self::is_input_name(output) {
            Err(DeviceError::PortKindMismatch)
        } else {
            Err(DeviceError::UnknownPort)
        }
    }

    fn provide_port_value(&mut self, port: String, value: u32) -> (r: Result<(), DeviceError>) {
        proof {
            lemma_port_names_distinct();
        }
        let ghost m = old(self).supplied().insert(port@, value);
        if port == "ra".to_owned() {
            if self.specified_ra.is_none() {
                self.specified_ra = Some(value);
                proof {
                    assert(*self == old(self).with_supplied(m));
                }
                Ok(())
            } else {
                Err(DeviceError::AlreadySupplied)
            }
        } else if port == "we".to_owned() {
            if self.specified_we.is_none() {
                self.specified_we = Some(value);
                proof {
                    assert(*self == old(self).with_supplied(m));
                }
                Ok(())
            } else {
                Err(DeviceError::AlreadySupplied)
            }
        } else if port == "wa".to_owned() {
            if self.specified_wa.is_none() {
                self.specified_wa = Some(value);
                proof {
                    assert(*self == old(self).with_supplied(m));
                }
                Ok(())
            } else {
                Err(DeviceError::AlreadySupplied)
            }
        } else if port == "wv".to_owned() {
            if self.specified_wv.is_none() {
                self.specified_wv = Some(value);
                proof {
                    assert(*self == old(self).with_supplied(m));
                }
                Ok(())
            } else {
                Err(DeviceError::AlreadySupplied)
            }
        } else if port == "rv".to_owned() {
            Err(DeviceError::PortKindMismatch)
        } else {
            Err(DeviceError::UnknownPort)
        }
    }

    fn provide_port_values(&mut self, values: Vec<(String, u32)>) -> (r: Result<
        (),
        DeviceError,
    >) {
        proof {
            lemma_port_names_distinct();
        }
        let ghost pv = pairs_view(values@);
        // First pass: reject the whole batch unless every key is a declared,
        // unfed input that no earlier pair in the batch names as well.
        let mut i: usize = 0;
        while i < values.len()
            invariant
                *self == *old(self),
                self.wf(),
                pv == pairs_view(values@),
                i <= values@.len(),
                forall|k: int|
                    0 <= k < i ==> self.inputs().contains((#[trigger] pv[k]).0)
                        && !self.supplied().dom().contains(pv[k].0),
                forall|k1: int, k2: int| 0 <= k1 < k2 < i ==> pv[k1].0 != pv[k2].0,
            decreases values@.len() - i,
        {
            let port = &values[i].0;
            if !Self::is_input_name(port) {
                proof {
                    assert(pv[i as int].0 == port@);
                    assert(!self.inputs().contains(pv[i as int].0));
                    assert(!self.batch_ok(pv));
                }
                return Err(DeviceError::UnknownPort);
            }
            let taken = if *port == "ra".to_owned() {
                self.specified_ra.is_some()
            } else if *port == "we".to_owned() {
                self.specified_we.is_some()
            } else if *port == "wa".to_owned() {
                self.specified_wa.is_some()
            } else {
                self.specified_wv.is_some()
            };
            if taken {
                proof {
                    assert(pv[i as int].0 == port@);
                    assert(self.supplied().dom().contains(pv[i as int].0));
                    assert(!self.batch_ok(pv));
                }
                return Err(DeviceError::AlreadySupplied);
            }
            let mut j: usize = 0;
            while j < i
                invariant
                    pv == pairs_view(values@),
                    j <= i < values@.len(),
                    forall|k: int| 0 <= k < j ==> pv[k].0 != pv[i as int].0,
                decreases i - j,
            {
                if values[j].0 == values[i].0 {
                    proof {
                        assert(pv[j as int].0 == pv[i as int].0);
                        assert(!distinct_keys(pv));
                        assert(!self.batch_ok(pv));
                    }
                    return Err(DeviceError::AlreadySupplied);
                }
                j += 1;
            }
            proof {
                lemma_port_names_distinct();
                assert(pv[i as int].0 == port@);
                if port@ == "ra"@ {
                    assert(self.specified_ra is None);
                } else if port@ == "we"@ {
                    assert(self.specified_we is None);
                } else if port@ == "wa"@ {
                    assert(self.specified_wa is None);
                } else {
                    assert(port@ == "wv"@);
                    assert(self.specified_wv is None);
                }
                assert(!self.supplied().dom().contains(pv[i as int].0));
                assert(self.inputs().contains(pv[i as int].0));
            }
            i += 1;
        }
        proof {
            assert(self.batch_ok(pv));
            lemma_pairs_to_map(pv);
            assert forall|ix: int| 0 <= ix < values@.len() implies self.inputs().contains(
                (#[trigger] values@[ix]).0@,
            ) && !self.supplied().dom().contains(values@[ix].0@) by {
                assert(pv[ix].0 == values@[ix].0@);
            }
        }
        // Second pass: feed the values one by one; the checks above show
        // that each single feed succeeds.
        let ghost dev0 = *self;
        let mut i2: usize = 0;
        while i2 < values.len()
            invariant
                dev0 == *old(self),
                dev0.wf(),
                self.wf(),
                pv == pairs_view(values@),
                dev0.batch_ok(pv),
                i2 <= values@.len(),
                *self == dev0.with_supplied(
                    dev0.supplied().union_prefer_right(pairs_to_map(pv.take(i2 as int))),
                ),
            decreases values@.len() - i2,
        {
            let ghost mcur = dev0.supplied().union_prefer_right(pairs_to_map(pv.take(i2 as int)));
            proof {
                dev0.lemma_wf();
                assert(mcur.dom().subset_of(dev0.inputs())) by {
                    lemma_pairs_to_map(pv.take(i2 as int));
                    assert forall|k: Seq<char>|
                        pairs_to_map(pv.take(i2 as int)).dom().contains(k) implies dev0.inputs(
                    ).contains(k) by {
                        let t = choose|t: int|
                            0 <= t < pv.take(i2 as int).len() && (#[trigger] pv.take(i2 as int)[t]).0
                                == k;
                        assert(pv[t].0 == k);
                    }
                }
                dev0.lemma_with_supplied(mcur);
                assert(self.supplied() == mcur);
                assert(self.inputs() == dev0.inputs());
                lemma_pairs_to_map(pv.take(i2 as int));
                assert(!pairs_to_map(pv.take(i2 as int)).dom().contains(pv[i2 as int].0)) by {
                    if pairs_to_map(pv.take(i2 as int)).dom().contains(pv[i2 as int].0) {
                        let t = choose|t: int|
                            0 <= t < pv.take(i2 as int).len() && (#[trigger] pv.take(i2 as int)[t]).0
                                == pv[i2 as int].0;
                        assert(pv[t].0 == pv[i2 as int].0);
                    }
                }
                assert(!self.supplied().dom().contains(pv[i2 as int].0));
                assert(self.inputs().contains(pv[i2 as int].0));
            }
            let pair_port = values[i2].0.clone();
            let pair_value = values[i2].1;
            proof {
                assert(pair_port@ == pv[i2 as int].0);
            }
            let res = self.provide_port_value(pair_port, pair_value);
            proof {
                assert(res is Ok);
                let mnext = mcur.insert(pv[i2 as int].0, pv[i2 as int].1);
                assert(*self == dev0.with_supplied(mcur).with_supplied(mnext));
                assert(mnext.dom().subset_of(dev0.inputs()));
                assert(*self == dev0.with_supplied(mnext));
                assert(pv.take(i2 + 1).drop_last() =~= pv.take(i2 as int));
                assert(pv.take(i2 + 1).last() == pv[i2 as int]);
                assert(pairs_to_map(pv.take(i2 + 1)) == pairs_to_map(pv.take(i2 as int)).insert(
                    pv[i2 as int].0,
                    pv[i2 as int].1,
                ));
                assert(dev0.supplied().union_prefer_right(pairs_to_map(pv.take(i2 + 1)))
                    =~= mnext);
            }
            i2 += 1;
        }
        proof {
            assert(pv.take(pv.len() as int) =~= pv);
        }
        Ok(())
    }

    fn get_port_value(&self, port: &String) -> (r: Result<Option<u32>, DeviceError>) {
        proof {
            lemma_port_names_distinct();
        }
        if *port == "rv".to_owned() {
            match self.specified_ra {
                None => {
                    proof {
                        assert(!self.supplied().dom().contains("ra"@));
                    }
                    Ok(None)
                },
                Some(addr) => {
                    proof {
                        assert(self.supplied().dom().contains("ra"@));
                        assert(self.supplied()["ra"@] == addr);
                    }
                    let stored = match self.data.get(&addr) {
                        Some(v) => *v,
                        None => 0,
                    };
                    Ok(Some(stored))
                },
            }
        } else if Self::is_input_name(port) {
            Err(DeviceError::PortKindMismatch)
        } else {
            Err(DeviceError::UnknownPort)
        }
    }

    fn tick(&mut self) -> (r: Result<(), DeviceError>) {
        match self.specified_we {
            None => Err(DeviceError::InsufficientInputs),
            Some(enable) => {
                if enable != 0 {
                    match (self.specified_wa, self.specified_wv) {
                        (Some(addr), Some(val)) => {
                            self.data.insert(addr, val);
                            self.specified_ra = None;
                            self.specified_we = None;
                            self.specified_wa = None;
                            self.specified_wv = None;
                            Ok(())
                        },
                        _ => Err(DeviceError::InsufficientInputs),
                    }
                } else {
                    self.specified_ra = None;
                    self.specified_we = None;
                    self.specified_wa = None;
                    self.specified_wv = None;
                    Ok(())
                }
            },
        }
    }
}

} // verus!
