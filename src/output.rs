use vstd::prelude::*;
use vstd::string::*;
use crate::qname::QualifiedName;

verus! {

/// Settings for serialisation: a method name and whether to indent.
#[derive(Clone, Debug)]
pub struct OutputDefinition {
    pub name: Option<QualifiedName>,
    pub indent: bool,
}

impl OutputDefinition {
    pub fn new() -> (r: OutputDefinition)
        ensures
            r.name.is_none(),
            !r.indent,
    {
        OutputDefinition { name: None, indent: false }
    }

    pub fn get_name(&self) -> (r: Option<QualifiedName>)
        ensures
            r == self.name,
    {
        match &self.name {
            Some(n) => Some(n.clone_name()),
            None => None,
        }
    }

    pub fn set_name(&mut self, name: Option<QualifiedName>)
        ensures
            final(self).name == name,
            final(self).indent == old(self).indent,
    {
        self.name = name;
    }

    pub fn get_indent(&self) -> (r: bool)
        ensures
            r == self.indent,
    {
        self.indent
    }

    pub fn set_indent(&mut self, ind: bool)
        ensures
            final(self).indent == ind,
            final(self).name == old(self).name,
    {
        self.indent = ind;
    }

    /// A description of the settings.
    pub fn to_string(&self) -> (r: String)
        ensures
            r@ == (if self.indent { "indent output"@ } else { "do not indent output"@ }),
    {
        if self.indent {
            String::from_str("indent output")
        } else {
            String::from_str("do not indent output")
        }
    }
}

} // verus!
