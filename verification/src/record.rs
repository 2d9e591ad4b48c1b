//! The snapshot data model: one record per process, and lookup by
//! process identifier.

use vstd::prelude::*;

verus! {

/// One process as it appeared in a snapshot of the operating system's
/// process table.
///
/// A process identifier is unique only within a snapshot and may be
/// reused by the operating system over time.  A `ppid` of 0 means the
/// process has no tracked parent.  `cpu_bits` carries the sampler's
/// 32-bit processor-usage reading as a raw bit pattern; the monitor
/// never interprets it, it only passes it through to the emitted tree.
#[derive(Clone, Debug, PartialEq)]
pub struct ProcessRecord {
    pub pid: u32,
    pub ppid: u32,
    pub name: String,
    pub cmd: Vec<String>,
    pub cpu_bits: u32,
    pub memory: u64,
}

/// The mathematical image of a `ProcessRecord`.
pub ghost struct RecView {
    pub pid: u32,
    pub ppid: u32,
    pub name: Seq<char>,
    pub cmd: Seq<Seq<char>>,
    pub cpu_bits: u32,
    pub memory: u64,
}

impl View for ProcessRecord {
    type V = RecView;

    open spec fn view(&self) -> RecView {
        RecView {
            pid: self.pid,
            ppid: self.ppid,
            name: self.name@,
            cmd: self.cmd.deep_view(),
            cpu_bits: self.cpu_bits,
            memory: self.memory,
        }
    }
}

/// The snapshot a vector of records stands for.
pub open spec fn snap_view(s: Seq<ProcessRecord>) -> Seq<RecView> {
    s.map_values(|r: ProcessRecord| r@)
}

/// Whether some record of the snapshot carries the identifier `p`.
pub open spec fn snap_has(s: Seq<RecView>, p: u32) -> bool {
    exists|i: int| 0 <= i < s.len() && s[i].pid == p
}

/// The record under which identifier `p` is indexed: the last record
/// of the snapshot whose identifier is `p` (a later duplicate, should
/// one ever occur, overwrites an earlier one), or `None` when no
/// record carries `p`.
pub open spec fn spec_find(s: Seq<RecView>, p: u32) -> Option<RecView>
    decreases s.len(),
{
    if s.len() == 0 {
        Option::<RecView>::None
    } else if s.last().pid == p {
        Option::Some(s.last())
    } else {
        spec_find(s.drop_last(), p)
    }
}

/// Lookup succeeds exactly on the identifiers the snapshot holds, and
/// what it returns is a record of the snapshot carrying that identifier.
pub proof fn lemma_find_characterizes(s: Seq<RecView>, p: u32)
    ensures
        spec_find(s, p) is Some <==> snap_has(s, p),
        spec_find(s, p) matches Option::Some(r) ==> r.pid == p && exists|i: int|
            0 <= i < s.len() && s[i] == r,
    decreases s.len(),
{
    if s.len() > 0 {
        if s.last().pid == p {
            assert(s[s.len() - 1].pid == p);
        } else {
            lemma_find_characterizes(s.drop_last(), p);
            if snap_has(s, p) {
                let i = choose|i: int| 0 <= i < s.len() && s[i].pid == p;
                assert(s.drop_last()[i] == s[i]);
            }
            if spec_find(s.drop_last(), p) is Some {
                let r = spec_find(s.drop_last(), p)->Some_0;
                let i = choose|i: int| 0 <= i < s.drop_last().len() && s.drop_last()[i] == r;
                assert(s[i] == r);
            }
        }
    }
}

/// The index under which `p` is found in the vector `s`: the position
/// of the last record with identifier `p`, or `None` when there is none.
pub fn find_record(s: &Vec<ProcessRecord>, p: u32) -> (r: Option<usize>)
    ensures
        match r {
            Option::Some(j) => j < s.len() && s@[j as int]@.pid == p && spec_find(
                snap_view(s@),
                p,
            ) == Option::Some(s@[j as int]@),
            Option::None => !snap_has(snap_view(s@), p),
        },
{
    let ghost sv = snap_view(s@);
    let mut i: usize = s.len();
    proof {
        assert(sv.subrange(0, s@.len() as int) =~= sv);
    }
    while i > 0
        invariant
            i <= s.len(),
            sv == snap_view(s@),
            spec_find(sv, p) == spec_find(sv.subrange(0, i as int), p),
        decreases i,
    {
        i = i - 1;
        if s[i].pid == p {
            proof {
                let pre = sv.subrange(0, i as int + 1);
                assert(pre.last() == sv[i as int]);
                assert(sv[i as int] == s@[i as int]@);
            }
            return Option::Some(i);
        }
        proof {
            let pre = sv.subrange(0, i as int + 1);
            assert(pre.last() == sv[i as int]);
            assert(pre.drop_last() =~= sv.subrange(0, i as int));
        }
    }
    proof {
        assert(sv.subrange(0, 0) =~= Seq::<RecView>::empty());
        lemma_find_characterizes(sv, p);
    }
    Option::None
}

} // verus!
