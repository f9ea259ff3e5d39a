use vstd::prelude::*;

verus! {

/// An interned name: a handle to a deduplicated string held by the
/// `internment` crate's global pool for the life of the process.
pub type Ident = internment::Intern<String>;

#[verifier::external_type_specification]
#[verifier::external_body]
#[verifier::reject_recursive_types(T)]
pub struct ExIntern<T: 'static + ?Sized>(internment::Intern<T>);

/// Relies on internment::Intern's Clone, whose body returns `*self`.
pub assume_specification<T>[ <internment::Intern<T> as Clone>::clone ](
    a: &internment::Intern<T>,
) -> (r: internment::Intern<T>) where T: std::marker::MetaSized + ?Sized
    ensures
        r == *a,
;

/// The string an `Ident` handle stands for in the interning pool.
pub uninterp spec fn ident_str(i: Ident) -> Seq<char>;

/// Relies on internment::Intern::new: interns the string and returns a
/// handle standing for exactly that string.
#[verifier::external_body]
pub fn new_ident(s: String) -> (r: Ident)
    ensures
        ident_str(r) == s@,
{
    internment::Intern::new(s)
}

/// Relies on internment::Intern's PartialEq: handles compare equal exactly
/// when the interned values are equal, since one value has one pointer.
#[verifier::external_body]
pub fn ident_eq(a: Ident, b: Ident) -> (r: bool)
    ensures
        r <==> ident_str(a) == ident_str(b),
{
    a == b
}

/// Relies on internment::Intern's Deref: yields the interned string itself.
#[verifier::external_body]
pub fn ident_string(i: Ident) -> (r: String)
    ensures
        r@ == ident_str(i),
{
    (*i).clone()
}

/// Relies on String::push_str: appends the slice onto the end of the string.
#[verifier::external_body]
pub fn str_append(s: &mut String, t: &str)
    ensures
        final(s)@ == old(s)@ + t@,
{
    s.push_str(t)
}

} // verus!
