use vstd::prelude::*;

verus! {

/// A platform-neutral path: an ordered sequence of name components with a
/// lossy string rendering that joins the components with `/`.
///
/// The same shape serves both for paths relative to a tree root and for
/// absolute paths (whose rendering simply starts with the first component).
#[derive(Clone, Debug, PartialEq)]
pub struct CrossPath {
    pub components: Vec<String>,
}

impl View for CrossPath {
    type V = Seq<Seq<char>>;

    open spec fn view(&self) -> Seq<Seq<char>> {
        Seq::new(self.components@.len(), |i: int| self.components@[i]@)
    }
}

/// The character sequence of `components` joined with `/` separators.
pub open spec fn spec_joined(components: Seq<Seq<char>>) -> Seq<char>
    decreases components.len(),
{
    if components.len() == 0 {
        Seq::empty()
    } else if components.len() == 1 {
        components[0]
    } else {
        components[0] + seq!['/'] + spec_joined(components.skip(1))
    }
}

impl CrossPath {
    pub fn new() -> (r: Self)
        ensures
            r@ =~= Seq::<Seq<char>>::empty(),
    {
        CrossPath { components: Vec::new() }
    }

    /// Appends one component.
    pub fn push(&mut self, component: String)
        ensures
            final(self)@ =~= old(self)@.push(component@),
    {
        self.components.push(component);
    }

    /// Appends every component of `other`, in order.
    pub fn push_path(&mut self, other: &CrossPath)
        ensures
            final(self)@ =~= old(self)@ + other@,
    {
        let n = other.components.len();
        let mut i: usize = 0;
        while i < n
            invariant
                i <= n,
                n == other.components@.len(),
                self@ =~= old(self)@ + other@.take(i as int),
            decreases n - i,
        {
            let ghost prev = self@;
            let c = other.components[i].clone();
            self.components.push(c);
            i += 1;
            proof {
                assert(self@ =~= prev.push(other@[i - 1]));
                assert(self@ =~= old(self)@ + other@.take(i as int));
            }
        }
        proof {
            assert(other@.take(n as int) =~= other@);
        }
    }

    pub fn len(&self) -> (r: usize)
        ensures
            r == self@.len(),
    {
        self.components.len()
    }

    /// A copy of this path whose view is equal to the original's.
    pub fn duplicate(&self) -> (r: Self)
        ensures
            r@ =~= self@,
    {
        let mut copy = CrossPath::new();
        copy.push_path(self);
        copy
    }

    /// The lossy string rendering: components joined with `/`.
    pub fn to_string_lossy(&self) -> (r: String)
        ensures
            r@ == spec_joined(self@),
    {
        let mut out = String::new();
        let n = self.components.len();
        if n == 0 {
            return out;
        }
        let mut i: usize = 0;
        proof {
            assert(self@.skip(0) =~= self@);
            assert(out@ + spec_joined(self@) =~= spec_joined(self@));
        }
        while i < n
            invariant
                i <= n,
                n == self.components@.len(),
                n >= 1,
                i < n ==> out@ + spec_joined(self@.skip(i as int)) == spec_joined(self@),
                i == n ==> out@ == spec_joined(self@),
            decreases n - i,
        {
            append_str(&mut out, &self.components[i]);
            i += 1;
            if i < n {
                push_char(&mut out, '/');
                proof {
                    let rest = self@.skip(i as int);
                    assert(self@.skip(i - 1 as int)[0] == self@[i - 1]);
                    assert(self@.skip(i - 1 as int).skip(1) =~= rest);
                    assert(spec_joined(self@.skip(i - 1 as int)) == self@[i - 1] + seq!['/']
                        + spec_joined(rest));
                }
            } else {
                proof {
                    assert(self@.skip(i - 1 as int) =~= seq![self@[i - 1]]);
                    assert(spec_joined(self@.skip(i - 1 as int)) == self@[i - 1]);
                }
            }
        }
        out
    }
}

/// Relies on `String::push`: appends exactly one character to the string.
#[verifier::external_body]
pub fn push_char(s: &mut String, c: char)
    ensures
        final(s)@ == old(s)@.push(c),
{
    s.push(c);
}

/// Appends every character of `piece` to `s`.
pub fn append_str(s: &mut String, piece: &String)
    ensures
        final(s)@ == old(s)@ + piece@,
{
    let n = piece.as_str().unicode_len();
    let mut i: usize = 0;
    while i < n
        invariant
            i <= n,
            n == piece@.len(),
            s@ == old(s)@ + piece@.take(i as int),
        decreases n - i,
    {
        let c = piece.as_str().get_char(i);
        push_char(s, c);
        i += 1;
        proof {
            assert(old(s)@ + piece@.take(i as int) =~= (old(s)@ + piece@.take(
                i - 1 as int,
            )).push(piece@[i - 1]));
        }
    }
    proof {
        assert(old(s)@ + piece@.take(n as int) =~= old(s)@ + piece@);
    }
}

/// The characters of the slice `s`, one vector element per character.
pub fn str_chars(s: &str) -> (r: Vec<char>)
    ensures
        r@ == s@,
{
    let n = s.unicode_len();
    let mut out: Vec<char> = Vec::new();
    let mut i: usize = 0;
    while i < n
        invariant
            i <= n,
            n == s@.len(),
            out@ == s@.take(i as int),
        decreases n - i,
    {
        out.push(s.get_char(i));
        i += 1;
        proof {
            assert(s@.take(i as int) =~= s@.take(i - 1 as int).push(s@[i - 1]));
        }
    }
    proof {
        assert(s@.take(n as int) =~= s@);
    }
    out
}

/// The characters of `s`, one vector element per character.
pub fn string_chars(s: &String) -> (r: Vec<char>)
    ensures
        r@ == s@,
{
    let n = s.as_str().unicode_len();
    let mut out: Vec<char> = Vec::new();
    let mut i: usize = 0;
    while i < n
        invariant
            i <= n,
            n == s@.len(),
            out@ == s@.take(i as int),
        decreases n - i,
    {
        out.push(s.as_str().get_char(i));
        i += 1;
        proof {
            assert(s@.take(i as int) =~= s@.take(i - 1 as int).push(s@[i - 1]));
        }
    }
    proof {
        assert(s@.take(n as int) =~= s@);
    }
    out
}

/// A string holding exactly the characters of `chars`, in order.
pub fn chars_to_string(chars: &Vec<char>) -> (r: String)
    ensures
        r@ == chars@,
{
    let mut out = String::new();
    let n = chars.len();
    let mut i: usize = 0;
    while i < n
        invariant
            i <= n,
            n == chars@.len(),
            out@ == chars@.take(i as int),
        decreases n - i,
    {
        push_char(&mut out, chars[i]);
        i += 1;
        proof {
            assert(chars@.take(i as int) =~= chars@.take(i - 1 as int).push(chars@[i - 1]));
        }
    }
    proof {
        assert(chars@.take(n as int) =~= chars@);
    }
    out
}

} // verus!
