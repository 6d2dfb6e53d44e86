use vstd::prelude::*;
use vstd::string::StrSliceExecFns;

verus! {

/// `s` is exactly of the static-archive naming convention `lib<name>.a`:
/// the whole file name starts with `lib` and ends with `.a`, with the
/// library's own name (possibly empty) in between.
pub open spec fn is_lib_name(s: Seq<char>) -> bool {
    &&& s.len() >= 5
    &&& s[0] == 'l'
    &&& s[1] == 'i'
    &&& s[2] == 'b'
    &&& s[s.len() - 2] == '.'
    &&& s[s.len() - 1] == 'a'
}

/// The `<name>` part of a file name of the form `lib<name>.a`.
pub open spec fn lib_base_name(s: Seq<char>) -> Seq<char> {
    s.subrange(3, s.len() - 2)
}

/// Strips the conventional `lib<name>.a` wrapper from a file name: the
/// `<name>` part when the whole name is of that form, and `None`
/// otherwise. The result is what a linker `-l<name>` directive takes.
pub fn get_static_lib_name(file_name: &str) -> (r: Option<String>)
    ensures
        r is Some <==> is_lib_name(file_name@),
        r matches Some(name) ==> name@ == lib_base_name(file_name@),
{
    let len = file_name.unicode_len();
    if len >= 5 && file_name.get_char(0) == 'l' && file_name.get_char(1) == 'i'
        && file_name.get_char(2) == 'b' && file_name.get_char(len - 2) == '.'
        && file_name.get_char(len - 1) == 'a' {
        let base = file_name.substring_char(3, len - 2);
        Some(base.to_owned())
    } else {
        None
    }
}

/// Reports whether a file name follows the static-archive naming
/// convention `lib<name>.a` as a whole.
pub fn is_static_lib(file_name: &str) -> (r: bool)
    ensures
        r == is_lib_name(file_name@),
{
    get_static_lib_name(file_name).is_some()
}

} // verus!
