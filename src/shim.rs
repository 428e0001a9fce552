use vstd::prelude::*;

verus! {

/// A transportable copy of an error and its chain of sources: what each
/// level shows when debug-formatted and when displayed.
#[derive(Debug, PartialEq, Eq)]
pub struct ErrorShim {
    pub source: Option<Box<ErrorShim>>,
    pub debug: String,
    pub display: String,
}

/// The levels of an error chain, outermost first, as (debug, display).
pub open spec fn shim_chain(e: ErrorShim) -> Seq<(Seq<char>, Seq<char>)>
    decreases e,
{
    seq![(e.debug@, e.display@)] + match e.source {
        Some(b) => shim_chain(*b),
        None => Seq::empty(),
    }
}

/// The chain that a list of (debug, display) pairs stands for.
pub open spec fn chain_view(list: Seq<(String, String)>) -> Seq<(Seq<char>, Seq<char>)> {
    list.map_values(|p: (String, String)| (p.0@, p.1@))
}

impl ErrorShim {
    /// The debug form of the outermost level.
    pub fn debug(&self) -> (r: &String)
        ensures
            r@ == self.debug@,
    {
        &self.debug
    }

    /// The displayed form of the outermost level.
    pub fn display(&self) -> (r: &String)
        ensures
            r@ == self.display@,
    {
        &self.display
    }

    /// The error this one was caused by, if any.
    pub fn source(&self) -> (r: Option<&ErrorShim>)
        ensures
            r matches Some(s) ==> self.source == Some(Box::new(*s)),
            r is None ==> self.source is None,
    {
        match &self.source {
            Some(b) => Some(&**b),
            None => None,
        }
    }

    /// The levels of the chain, outermost first.
    pub fn to_chain(&self) -> (r: Vec<(String, String)>)
        ensures
            chain_view(r@) == shim_chain(*self),
        decreases self,
    {
        let mut rest = match &self.source {
            Some(b) => b.to_chain(),
            None => Vec::new(),
        };
        let mut out: Vec<(String, String)> = Vec::new();
        out.push((self.debug.clone(), self.display.clone()));
        out.append(&mut rest);
        proof {
            assert(chain_view(out@) =~= shim_chain(*self));
        }
        out
    }

    /// Rebuilds the chain from its levels, outermost first.
    pub fn from_chain(list: &Vec<(String, String)>) -> (r: Option<ErrorShim>)
        ensures
            list@.len() == 0 <==> r is None,
            r matches Some(e) ==> shim_chain(e) == chain_view(list@),
    {
        if list.len() == 0 {
            return None;
        }
        let n = list.len();
        let mut cur = ErrorShim {
            source: None,
            debug: list[n - 1].0.clone(),
            display: list[n - 1].1.clone(),
        };
        let mut i: usize = n - 1;
        proof {
            assert(shim_chain(cur) =~= chain_view(list@.skip(i as int)));
        }
        while i > 0
            invariant
                0 <= i < n,
                n == list@.len(),
                shim_chain(cur) == chain_view(list@.skip(i as int)),
            decreases i,
        {
            i = i - 1;
            let next = ErrorShim {
                source: Some(Box::new(cur)),
                debug: list[i].0.clone(),
                display: list[i].1.clone(),
            };
            proof {
                assert(chain_view(list@.skip(i as int)) =~= seq![(list@[i as int].0@, list@[i as int].1@)]
                    + chain_view(list@.skip(i + 1)));
            }
            cur = next;
        }
        proof {
            assert(list@.skip(0) =~= list@);
        }
        Some(cur)
    }
}

} // verus!
