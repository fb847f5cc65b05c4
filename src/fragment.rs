use vstd::prelude::*;

verus! {

/// One script fragment: its standalone text, its body without argument
/// initialisation, and the names of its local arguments in binding order.
#[derive(Clone, Copy, Debug)]
pub struct Info {
    /// The entire script including arguments initialization
    script: &'static str,
    /// The script excluding arguments initialization
    body: &'static str,
    /// The list of arguments.
    args: &'static [&'static str],
}

impl Info {
    /// The fragment as a standalone script.
    pub closed spec fn full_text(&self) -> Seq<char> {
        self.script@
    }

    /// The fragment's body, without its argument prologue.
    pub closed spec fn body_text(&self) -> Seq<char> {
        self.body@
    }

    /// The fragment's local argument names, in binding order.
    pub closed spec fn arg_names(&self) -> Seq<Seq<char>> {
        self.args@.map_values(|a: &'static str| a@)
    }

    /// The number of arguments the fragment declares.
    pub open spec fn arg_count(&self) -> nat {
        self.arg_names().len()
    }

    pub fn new(script: &'static str, body: &'static str, args: &'static [&'static str]) -> (r: Self)
        ensures
            r.full_text() == script@,
            r.body_text() == body@,
            r.arg_names() == args@.map_values(|a: &'static str| a@),
    {
        Self { script, body, args }
    }

    pub fn script(&self) -> (r: &'static str)
        ensures
            r@ == self.full_text(),
    {
        self.script
    }

    pub fn body(&self) -> (r: &'static str)
        ensures
            r@ == self.body_text(),
    {
        self.body
    }

    pub fn args(&self) -> (r: &'static [&'static str])
        ensures
            r@.len() == self.arg_count(),
            forall|j: int| 0 <= j < r@.len() ==> (#[trigger] r@[j])@ == self.arg_names()[j],
    {
        self.args
    }
}

} // verus!
