use vstd::prelude::*;

verus! {

/// The texts of a sequence of strings.
pub open spec fn str_views(s: Seq<String>) -> Seq<Seq<char>> {
    s.map_values(|t: String| t@)
}

pub proof fn lemma_str_views_push(s: Seq<String>, x: String)
    ensures
        str_views(s.push(x)) =~= str_views(s).push(x@),
{
}

/// A filesystem path, held as its components.
///
/// An absolute path such as `/home/u/logs` is held as
/// `["", "home", "u", "logs"]`: the empty leading component stands for the
/// filesystem root, so that joining the components with `/` re-renders the
/// original text and the component count equals the path's depth.
#[derive(Debug)]
pub struct FsPath {
    pub parts: Vec<String>,
}

impl View for FsPath {
    type V = Seq<Seq<char>>;

    open spec fn view(&self) -> Seq<Seq<char>> {
        str_views(self.parts@)
    }
}

/// `p` names `q` itself or an ancestor of `q`, component-wise.
pub open spec fn is_prefix_of(p: Seq<Seq<char>>, q: Seq<Seq<char>>) -> bool {
    p.len() <= q.len() && forall|i: int| 0 <= i < p.len() ==> p[i] == q[i]
}

/// `p` names a strict ancestor of `q`.
pub open spec fn is_strict_prefix_of(p: Seq<Seq<char>>, q: Seq<Seq<char>>) -> bool {
    is_prefix_of(p, q) && p.len() < q.len()
}

/// The text of a path: its components joined with `/`.
pub open spec fn join_parts(p: Seq<Seq<char>>) -> Seq<char>
    decreases p.len(),
{
    if p.len() == 0 {
        Seq::empty()
    } else if p.len() == 1 {
        p[0]
    } else {
        join_parts(p.drop_last()) + seq!['/'] + p.last()
    }
}

/// Copies a vector of strings, keeping its contents.
pub fn clone_strings(v: &Vec<String>) -> (r: Vec<String>)
    ensures
        r@ == v@,
{
    let mut r: Vec<String> = Vec::new();
    let mut i: usize = 0;
    while i < v.len()
        invariant
            i <= v.len(),
            r@ == v@.subrange(0, i as int),
        decreases v.len() - i,
    {
        r.push(v[i].clone());
        assert(r@ =~= v@.subrange(0, i + 1 as int));
        i = i + 1;
    }
    proof {
        assert(r@ =~= v@);
    }
    r
}

impl Clone for FsPath {
    fn clone(&self) -> (r: Self)
        ensures
            r@ == self@,
    {
        FsPath { parts: clone_strings(&self.parts) }
    }
}

impl FsPath {
    /// A path with no components.
    pub fn empty() -> (r: FsPath)
        ensures
            r@ == Seq::<Seq<char>>::empty(),
    {
        let r = FsPath { parts: Vec::new() };
        proof {
            assert(r@ =~= Seq::<Seq<char>>::empty());
        }
        r
    }

    /// The number of components: the path's depth.
    pub fn depth(&self) -> (r: usize)
        ensures
            r == self@.len(),
    {
        self.parts.len()
    }

    /// The path extended by one further component.
    pub fn child(&self, name: &String) -> (r: FsPath)
        ensures
            r@ == self@.push(name@),
    {
        let mut parts = clone_strings(&self.parts);
        parts.push(name.clone());
        let r = FsPath { parts };
        proof {
            assert(r@ =~= self@.push(name@));
        }
        r
    }

    /// The final component, if any.
    pub fn last_part(&self) -> (r: Option<&String>)
        ensures
            match r {
                Some(s) => self@.len() > 0 && s@ == self@.last(),
                None => self@.len() == 0,
            },
    {
        if self.parts.len() == 0 {
            None
        } else {
            Some(&self.parts[self.parts.len() - 1])
        }
    }

    /// Whether `prefix` names this path or one of its ancestors.
    pub fn starts_with(&self, prefix: &FsPath) -> (r: bool)
        ensures
            r == is_prefix_of(prefix@, self@),
    {
        if prefix.parts.len() > self.parts.len() {
            return false;
        }
        let mut i: usize = 0;
        while i < prefix.parts.len()
            invariant
                i <= prefix.parts.len(),
                prefix.parts.len() <= self.parts.len(),
                forall|j: int| 0 <= j < i ==> prefix@[j] == self@[j],
            decreases prefix.parts.len() - i,
        {
            if !(prefix.parts[i] == self.parts[i]) {
                proof {
                    assert(prefix@[i as int] == prefix.parts@[i as int]@);
                    assert(self@[i as int] == self.parts@[i as int]@);
                }
                return false;
            }
            proof {
                assert(prefix@[i as int] == prefix.parts@[i as int]@);
                assert(self@[i as int] == self.parts@[i as int]@);
            }
            i = i + 1;
        }
        true
    }

    /// The path's text: its components joined with `/`.
    pub fn render(&self) -> (r: String)
        ensures
            r@ == join_parts(self@),
    {
        let mut s = String::new();
        if self.parts.len() == 0 {
            return s;
        }
        s.append(self.parts[0].as_str());
        proof {
            assert(self@[0] == self.parts@[0]@);
            assert(s@ == join_parts(self@.subrange(0, 1)));
        }
        let mut i: usize = 1;
        while i < self.parts.len()
            invariant
                1 <= i <= self.parts.len(),
                s@ == join_parts(self@.subrange(0, i as int)),
            decreases self.parts.len() - i,
        {
            s.append("/");
            s.append(self.parts[i].as_str());
            proof {
                reveal_strlit("/");
                assert("/"@ =~= seq!['/']);
                assert(self@[i as int] == self.parts@[i as int]@);
                let sub = self@.subrange(0, i + 1 as int);
                assert(sub.drop_last() =~= self@.subrange(0, i as int));
                assert(sub.last() == self@[i as int]);
            }
            i = i + 1;
        }
        proof {
            assert(self@.subrange(0, self@.len() as int) =~= self@);
        }
        s
    }
}

} // verus!
