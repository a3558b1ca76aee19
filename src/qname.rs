use vstd::prelude::*;
use vstd::string::*;

verus! {

/// The view of an optional string.
pub open spec fn opt_str(o: Option<String>) -> Option<Seq<char>> {
    match o {
        Some(s) => Some(s@),
        None => None,
    }
}

/// Whether two optional strings hold the same text.
pub fn opt_str_eq(a: &Option<String>, b: &Option<String>) -> (r: bool)
    ensures
        r == (opt_str(*a) == opt_str(*b)),
{
    match a {
        Some(x) => match b {
            Some(y) => x.eq(y),
            None => false,
        },
        None => b.is_none(),
    }
}

/// A copy of an optional string.
pub fn opt_str_copy(a: &Option<String>) -> (r: Option<String>)
    ensures
        r == *a,
{
    match a {
        Some(x) => Some(x.clone()),
        None => None,
    }
}

/// A namespace-aware name. Two names are the same when their namespace URIs
/// and local names are; the prefix is only how the name is written.
#[derive(Clone, Debug)]
pub struct QualifiedName {
    pub nsuri: Option<String>,
    pub prefix: Option<String>,
    pub localname: String,
}

/// Whether two names have the same identity (namespace URI and local name).
pub open spec fn same_name(a: QualifiedName, b: QualifiedName) -> bool {
    opt_str(a.nsuri) == opt_str(b.nsuri) && a.localname@ == b.localname@
}

/// How a name is written: `prefix:local`, or the local name alone.
pub open spec fn name_text(q: QualifiedName) -> Seq<char> {
    match q.prefix {
        Some(p) => p@ + ":"@ + q.localname@,
        None => q.localname@,
    }
}

impl QualifiedName {
    pub fn new(nsuri: Option<String>, prefix: Option<String>, localname: String) -> (r: QualifiedName)
        ensures
            r.nsuri == nsuri,
            r.prefix == prefix,
            r.localname == localname,
    {
        QualifiedName { nsuri, prefix, localname }
    }

    /// A copy of the name, field for field.
    pub fn clone_name(&self) -> (r: QualifiedName)
        ensures
            r == *self,
    {
        QualifiedName {
            nsuri: opt_str_copy(&self.nsuri),
            prefix: opt_str_copy(&self.prefix),
            localname: self.localname.clone(),
        }
    }

    pub fn get_nsuri(&self) -> (r: Option<String>)
        ensures
            r == self.nsuri,
    {
        opt_str_copy(&self.nsuri)
    }

    pub fn get_prefix(&self) -> (r: Option<String>)
        ensures
            r == self.prefix,
    {
        opt_str_copy(&self.prefix)
    }

    pub fn get_localname(&self) -> (r: String)
        ensures
            r == self.localname,
    {
        self.localname.clone()
    }

    /// The written form of the name.
    pub fn to_string(&self) -> (r: String)
        ensures
            r@ == name_text(*self),
    {
        match &self.prefix {
            Some(p) => {
                let mut s = p.clone();
                s.append(":");
                s.append(self.localname.as_str());
                s
            },
            None => self.localname.clone(),
        }
    }

    /// Whether `self` and `o` name the same thing.
    pub fn same_as(&self, o: &QualifiedName) -> (r: bool)
        ensures
            r == same_name(*self, *o),
    {
        opt_str_eq(&self.nsuri, &o.nsuri) && self.localname == o.localname
    }
}

impl PartialEq for QualifiedName {
    fn eq(&self, o: &QualifiedName) -> (r: bool) {
        self.same_as(o)
    }
}

impl vstd::std_specs::cmp::PartialEqSpecImpl for QualifiedName {
    open spec fn obeys_eq_spec() -> bool {
        true
    }

    open spec fn eq_spec(&self, o: &QualifiedName) -> bool {
        same_name(*self, *o)
    }
}

} // verus!
