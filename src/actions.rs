//! What the caller asked for: the two directories, the actions to take on
//! the result, and the text of the path lists it writes.
use vstd::prelude::*;

verus! {

/// The two directory trees to compare and, if given, the action selector.
pub struct Invocation {
    /// Tree A, the source.
    pub dir_a: String,
    /// Tree B, the target whose files are classified.
    pub dir_b: String,
    /// The action selector, if one was given.
    pub action: Option<String>,
}

/// Why the command line cannot be used.
#[derive(Debug, PartialEq, Eq, Structural)]
pub enum UsageError {
    /// Fewer than two directory paths were given.
    MissingDirectories,
}

/// Reads the command line `args` (the program name first, then tree A, tree
/// B and an optional action selector; anything after that is ignored).
pub fn parse_invocation(args: &Vec<String>) -> (r: Result<Invocation, UsageError>)
    ensures
        args@.len() < 3 <==> r is Err,
        r is Err ==> r == Err::<Invocation, UsageError>(UsageError::MissingDirectories),
        r is Ok ==> {
            &&& r->Ok_0.dir_a@ == args@[1]@
            &&& r->Ok_0.dir_b@ == args@[2]@
            &&& (args@.len() == 3 ==> r->Ok_0.action is None)
            &&& (args@.len() > 3 ==> r->Ok_0.action is Some && r->Ok_0.action->Some_0@
                == args@[3]@)
        },
{
    if args.len() < 3 {
        return Err(UsageError::MissingDirectories);
    }
    let action = if args.len() > 3 {
        Some(args[3].clone())
    } else {
        None
    };
    Ok(Invocation { dir_a: args[1].clone(), dir_b: args[2].clone(), action })
}

/// The actions an action selector asks for. They are not exclusive: each one
/// asked for is taken.
#[derive(Debug, PartialEq, Eq, Structural)]
pub struct Actions {
    /// `y`: delete each duplicate file of B.
    pub delete_duplicates: bool,
    /// `o`: write the list of duplicate paths.
    pub write_duplicates: bool,
    /// `u`: write the list of unique paths.
    pub write_unique: bool,
}

/// Reads an action selector: each of `y`, `o` and `u` that occurs in it asks
/// for its action, in any order and combination; other characters ask for
/// nothing.
pub fn parse_actions(selector: &str) -> (r: Actions)
    ensures
        r.delete_duplicates == selector@.contains('y'),
        r.write_duplicates == selector@.contains('o'),
        r.write_unique == selector@.contains('u'),
{
    let n = selector.unicode_len();
    let mut r = Actions { delete_duplicates: false, write_duplicates: false, write_unique: false };
    let mut i: usize = 0;
    while i < n
        invariant
            n == selector@.len(),
            i <= n,
            r.delete_duplicates == selector@.take(i as int).contains('y'),
            r.write_duplicates == selector@.take(i as int).contains('o'),
            r.write_unique == selector@.take(i as int).contains('u'),
        decreases n - i,
    {
        let c = selector.get_char(i);
        let ghost seen = selector@.take(i as int);
        let ghost next = selector@.take(i + 1);
        assert(next =~= seen.push(c));
        assert forall|x: char| next.contains(x) <==> seen.contains(x) || x == c by {
            if next.contains(x) && x != c {
                let j = choose|j: int| 0 <= j < next.len() && next[j] == x;
                assert(seen[j] == x);
            }
            if seen.contains(x) {
                let j = choose|j: int| 0 <= j < seen.len() && seen[j] == x;
                assert(next[j] == x);
            }
            if x == c {
                assert(next[i as int] == x);
            }
        }
        if c == 'y' {
            r.delete_duplicates = true;
        } else if c == 'o' {
            r.write_duplicates = true;
        } else if c == 'u' {
            r.write_unique = true;
        }
        i = i + 1;
    }
    assert(selector@.take(n as int) =~= selector@);
    r
}

/// The text of a path list: each path followed by a line break, in order.
pub open spec fn list_text(paths: Seq<Seq<char>>) -> Seq<char>
    decreases paths.len(),
{
    if paths.len() == 0 {
        seq![]
    } else {
        list_text(paths.drop_last()) + paths.last() + seq!['\n']
    }
}

/// The contents of a file that lists `paths`, one per line.
pub fn path_list_text(paths: &Vec<String>) -> (r: String)
    ensures
        r@ == list_text(paths@.map_values(|p: String| p@)),
{
    let ghost ps = paths@.map_values(|p: String| p@);
    let mut text = String::new();
    let mut i: usize = 0;
    assert(ps.take(0) =~= Seq::<Seq<char>>::empty());
    while i < paths.len()
        invariant
            i <= paths@.len(),
            ps == paths@.map_values(|p: String| p@),
            text@ == list_text(ps.take(i as int)),
        decreases paths@.len() - i,
    {
        assert(ps.take(i + 1).drop_last() =~= ps.take(i as int));
        assert(ps.take(i + 1).last() == paths@[i as int]@);
        proof {
            reveal_strlit("\n");
        }
        text.append(paths[i].as_str());
        text.append("\n");
        i = i + 1;
    }
    assert(ps.take(paths@.len() as int) =~= ps);
    text
}

} // verus!
