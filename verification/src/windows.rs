//! Dialog-window state: the error dialog (title, description, visibility),
//! the measurement histogram window, and the algorithm selectors the host
//! shell dispatches on. Only the state transitions live here; rendering is
//! the host's concern.

use vstd::prelude::*;

verus! {

/// The line-rasterizer selector.
#[derive(Clone, Copy, PartialEq, Eq, Structural, Debug)]
pub enum Algo {
    DDA,
    BresenhamFloat,
    BresenhamReal,
    BresenhamJaggiesLess,
    WU,
    BuiltIn,
}

/// The conic-rasterizer selector.
#[derive(Clone, Copy, PartialEq, Eq, Structural, Debug)]
pub enum DrawType {
    CANONICAL,
    PARAMETRIC,
    MIDPOINT,
    BRESENHAM,
    BuiltIn,
}

/// An error dialog: a title, a description, and whether it is shown.
pub struct ErrorWindow {
    title: String,
    description: String,
    enabled: bool,
}

impl ErrorWindow {
    pub closed spec fn spec_title(&self) -> Seq<char> {
        self.title@
    }

    pub closed spec fn spec_description(&self) -> Seq<char> {
        self.description@
    }

    pub closed spec fn spec_enabled(&self) -> bool {
        self.enabled
    }

    pub fn new() -> (w: ErrorWindow)
        ensures
            !w.spec_enabled(),
            w.spec_title() =~= Seq::<char>::empty(),
            w.spec_description() =~= Seq::<char>::empty(),
    {
        ErrorWindow { title: String::new(), description: String::new(), enabled: false }
    }

    /// Shows the dialog with the given title and description.
    pub fn set_error(&mut self, title: String, description: String)
        ensures
            final(self).spec_enabled(),
            final(self).spec_title() == title@,
            final(self).spec_description() == description@,
    {
        self.enabled = true;
        self.title = title;
        self.description = description;
    }

    pub fn enabled(&self) -> (r: bool)
        ensures
            r == self.spec_enabled(),
    {
        self.enabled
    }

    pub fn title(&self) -> (r: &String)
        ensures
            r@ == self.spec_title(),
    {
        &self.title
    }

    pub fn description(&self) -> (r: &String)
        ensures
            r@ == self.spec_description(),
    {
        &self.description
    }

    pub fn disable(&mut self)
        ensures
            !final(self).spec_enabled(),
            final(self).spec_title() == old(self).spec_title(),
            final(self).spec_description() == old(self).spec_description(),
    {
        self.enabled = false;
    }

    pub fn enable(&mut self)
        ensures
            final(self).spec_enabled(),
            final(self).spec_title() == old(self).spec_title(),
            final(self).spec_description() == old(self).spec_description(),
    {
        self.enabled = true;
    }
}

/// A histogram window of named timing samples.
pub struct HistoWindow {
    enabled: bool,
    data: Vec<(String, u128)>,
}

impl HistoWindow {
    pub closed spec fn spec_enabled(&self) -> bool {
        self.enabled
    }

    pub closed spec fn spec_values(&self) -> Seq<int> {
        self.data@.map_values(|e: (String, u128)| e.1 as int)
    }

    pub fn new() -> (w: HistoWindow)
        ensures
            !w.spec_enabled(),
            w.spec_values() =~= Seq::<int>::empty(),
    {
        HistoWindow { enabled: false, data: Vec::new() }
    }

    /// Shows the window over a fresh copy of the samples.
    pub fn set_values(&mut self, data: &Vec<(String, u128)>)
        ensures
            final(self).spec_enabled(),
            final(self).spec_values() == data@.map_values(|e: (String, u128)| e.1 as int),
    {
        let mut copied: Vec<(String, u128)> = Vec::new();
        let mut i: usize = 0;
        while i < data.len()
            invariant
                0 <= i <= data@.len(),
                copied@.len() == i,
                forall|k: int| 0 <= k < i ==> (#[trigger] copied@[k]).1 == data@[k].1,
            decreases data@.len() - i,
        {
            let name = data[i].0.clone();
            let value = data[i].1;
            copied.push((name, value));
            i = i + 1;
        }
        self.enabled = true;
        self.data = copied;
        proof {
            assert(self.spec_values() =~= data@.map_values(|e: (String, u128)| e.1 as int));
        }
    }

    pub fn enabled(&self) -> (r: bool)
        ensures
            r == self.spec_enabled(),
    {
        self.enabled
    }

    /// Hides the window and discards its samples.
    pub fn disable(&mut self)
        ensures
            !final(self).spec_enabled(),
            final(self).spec_values() =~= Seq::<int>::empty(),
    {
        self.enabled = false;
        self.data = Vec::new();
    }

    pub fn enable(&mut self)
        ensures
            final(self).spec_enabled(),
            final(self).spec_values() == old(self).spec_values(),
    {
        self.enabled = true;
    }
}

} // verus!
