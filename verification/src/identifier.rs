//! Validated, whitespace-free names for rules and actions.

use vstd::prelude::*;

verus! {

/// True exactly for the Unicode code points with the `White_Space` property.
pub open spec fn is_whitespace_char(c: char) -> bool {
    let u = c as u32;
    ||| u == 0x09
    ||| u == 0x0A
    ||| u == 0x0B
    ||| u == 0x0C
    ||| u == 0x0D
    ||| u == 0x20
    ||| u == 0x85
    ||| u == 0xA0
    ||| u == 0x1680
    ||| (0x2000 <= u && u <= 0x200A)
    ||| u == 0x2028
    ||| u == 0x2029
    ||| u == 0x202F
    ||| u == 0x205F
    ||| u == 0x3000
}

/// True when some character of `s` is a whitespace character.
pub open spec fn has_whitespace(s: Seq<char>) -> bool {
    exists|i: int| 0 <= i < s.len() && is_whitespace_char(s[i])
}

/// A rule or action name: a string containing no whitespace character.
///
/// Identifiers are the keys of the rule store and the node labels of the
/// dependency graph.  They are immutable after construction, and the only
/// constructor rejects any candidate containing whitespace.
#[derive(Debug)]
pub struct Identifier {
    text: String,
}

impl View for Identifier {
    type V = Seq<char>;

    closed spec fn view(&self) -> Seq<char> {
        self.text@
    }
}

/// Runtime test for membership in the `White_Space` set of
/// [`is_whitespace_char`].
fn whitespace_char(c: char) -> (r: bool)
    ensures
        r == is_whitespace_char(c),
{
    let u = c as u32;
    u == 0x09 || u == 0x0A || u == 0x0B || u == 0x0C || u == 0x0D || u == 0x20 || u == 0x85
        || u == 0xA0 || u == 0x1680 || (0x2000 <= u && u <= 0x200A) || u == 0x2028 || u == 0x2029
        || u == 0x202F || u == 0x205F || u == 0x3000
}

impl Identifier {
    /// A candidate name containing any whitespace character is always
    /// rejected; one with none is accepted unchanged, and `Err` hands the
    /// offending text back to the caller.
    pub fn new(name: String) -> (r: Result<Identifier, String>)
        ensures
            match r {
                Ok(id) => !has_whitespace(name@) && id@ == name@,
                Err(t) => has_whitespace(name@) && t@ == name@,
            },
    {
        let n = name.as_str().unicode_len();
        let mut i: usize = 0;
        while i < n
            invariant
                n == name@.len(),
                i <= n,
                forall|j: int| 0 <= j < i ==> !is_whitespace_char(name@[j]),
            decreases n - i,
        {
            let c = name.as_str().get_char(i);
            if whitespace_char(c) {
                return Err(name);
            }
            i = i + 1;
        }
        Ok(Identifier { text: name })
    }

    /// The underlying text of the name.
    pub fn as_str(&self) -> (r: &str)
        ensures
            r@ == self@,
    {
        self.text.as_str()
    }
}

impl Clone for Identifier {
    fn clone(&self) -> (r: Self)
        ensures
            r == *self,
    {
        Identifier { text: self.text.clone() }
    }
}

impl PartialEq for Identifier {
    fn eq(&self, other: &Identifier) -> (r: bool) {
        self.text == other.text
    }
}

impl vstd::std_specs::cmp::PartialEqSpecImpl for Identifier {
    open spec fn obeys_eq_spec() -> bool {
        true
    }

    open spec fn eq_spec(&self, other: &Identifier) -> bool {
        self@ == other@
    }
}

} // verus!
