//! Per-class confidence thresholds.
use vstd::prelude::*;
use crate::fixed::PPM;

verus! {

/// The thresholds for `n` classes drawn from `confs`: class `i` takes
/// `confs[i]`, and classes beyond the supplied list take its last entry.
pub open spec fn padded_confs(confs: Seq<u32>, n: nat) -> Seq<u32> {
    Seq::new(n, |i: int| if i < confs.len() { confs[i] } else { confs.last() })
}

/// No threshold is above 1.0.
pub open spec fn confs_valid(confs: Seq<u32>) -> bool {
    forall|i: int| 0 <= i < confs.len() ==> #[trigger] confs[i] <= PPM
}

/// The confidence thresholds of a model, one per class, in millionths.
#[derive(Debug)]
pub struct DynConf {
    confs: Vec<u32>,
}

impl View for DynConf {
    type V = Seq<u32>;

    closed spec fn view(&self) -> Seq<u32> {
        self.confs@
    }
}

impl Clone for DynConf {
    fn clone(&self) -> (c: DynConf)
        ensures
            c@ == self@,
    {
        proof {
            use_type_invariant(self);
        }
        let mut confs: Vec<u32> = Vec::new();
        let mut i: usize = 0;
        while i < self.confs.len()
            invariant
                i <= self.confs@.len(),
                confs@ == self.confs@.take(i as int),
            decreases self.confs@.len() - i,
        {
            confs.push(self.confs[i]);
            assert(confs@ == self.confs@.take(i + 1));
            i += 1;
        }
        assert(self.confs@.take(self.confs@.len() as int) == self.confs@);
        DynConf { confs }
    }
}

impl DynConf {
    #[verifier::type_invariant]
    spec fn inv(self) -> bool {
        confs_valid(self.confs@)
    }

    /// Builds the table for `n` classes; nothing when a threshold is above
    /// 1.0, or when thresholds are wanted and none is supplied.
    pub fn new(confs: &Vec<u32>, n: usize) -> (table: Option<DynConf>)
        ensures
            table.is_some() <==> confs_valid(confs@) && (n == 0 || confs@.len() > 0),
            table.is_some() ==> table.unwrap()@ == padded_confs(confs@, n as nat),
    {
        let mut k: usize = 0;
        while k < confs.len()
            invariant
                k <= confs@.len(),
                forall|i: int| 0 <= i < k ==> #[trigger] confs@[i] <= PPM,
            decreases confs@.len() - k,
        {
            if confs[k] > PPM {
                return None;
            }
            k += 1;
        }
        if n > 0 && confs.len() == 0 {
            return None;
        }
        let mut out: Vec<u32> = Vec::new();
        let mut i: usize = 0;
        while i < n
            invariant
                i <= n,
                n > 0 ==> confs@.len() > 0,
                confs_valid(confs@),
                out@.len() == i,
                forall|j: int| 0 <= j < i ==> out@[j] == padded_confs(confs@, n as nat)[j],
            decreases n - i,
        {
            let v: u32 = if i < confs.len() { confs[i] } else { confs[confs.len() - 1] };
            out.push(v);
            i += 1;
        }
        assert(out@ =~= padded_confs(confs@, n as nat));
        Some(DynConf { confs: out })
    }

    /// The number of classes.
    pub fn len(&self) -> (n: usize)
        ensures
            n == self@.len(),
    {
        self.confs.len()
    }

    /// The threshold of class `id`, if the table has that class.
    pub fn get(&self, id: usize) -> (conf: Option<u32>)
        ensures
            conf.is_some() <==> id < self@.len(),
            conf.is_some() ==> conf.unwrap() == self@[id as int] && conf.unwrap() <= PPM,
    {
        proof {
            use_type_invariant(self);
        }
        if id < self.confs.len() {
            Some(self.confs[id])
        } else {
            None
        }
    }
}

} // verus!
