use vstd::prelude::*;

verus! {

/// What heck's snake-case conversion makes of a group name.
pub uninterp spec fn snake_case_of(s: Seq<char>) -> Seq<char>;

/// What syn makes of a comma-separated list of Rust paths: `None` when the
/// text is not such a list, else for each path, in order, the identifiers of
/// its segments.
pub uninterp spec fn parsed_group_paths(s: Seq<char>) -> Option<Seq<Seq<Seq<char>>>>;

/// Relies on heck's `ToSnakeCase::to_snake_case` for `str`: the field name of
/// a group, which depends on the characters of its name alone.
#[verifier::external_body]
fn to_snake_case(s: &str) -> (r: String)
    ensures
        r@ == snake_case_of(s@),
{
    heck::ToSnakeCase::to_snake_case(s)
}

/// The text of each segment of each path.
pub open spec fn path_views(v: Seq<Vec<String>>) -> Seq<Seq<Seq<char>>> {
    v.map_values(|p: Vec<String>| p@.map_values(|x: String| x@))
}

/// Relies on syn's `Punctuated::<syn::Path, syn::token::Comma>::parse_terminated`
/// through `syn::parse::Parser::parse_str`: parses the list of groups of a
/// database declaration into the segment identifiers of each path.
#[verifier::external_body]
fn parse_group_list(s: &str) -> (r: Option<Vec<Vec<String>>>)
    ensures
        match r {
            Some(v) => parsed_group_paths(s@) == Some(path_views(v@)),
            None => parsed_group_paths(s@) is None,
        },
{
    let parser = syn::punctuated::Punctuated::<syn::Path, syn::token::Comma>::parse_terminated;
    match syn::parse::Parser::parse_str(parser, s) {
        Ok(list) => Some(
            list.iter().map(|p| p.segments.iter().map(|seg| seg.ident.to_string()).collect()).collect(),
        ),
        Err(_) => None,
    }
}

/// The name of a group: the last segment of its path, if it has one.
pub open spec fn last_segment(p: Seq<Seq<char>>) -> Option<Seq<char>> {
    if p.len() == 0 {
        None
    } else {
        Some(p[p.len() - 1])
    }
}

/// Names a group by the last segment of its path.
pub fn group_name(segments: &Vec<String>) -> (r: Option<String>)
    ensures
        match r {
            Some(n) => last_segment(segments@.map_values(|x: String| x@)) == Some(n@),
            None => last_segment(segments@.map_values(|x: String| x@)) is None,
        },
{
    if segments.len() == 0 {
        None
    } else {
        Some(segments[segments.len() - 1].clone())
    }
}

/// The storage slot that a database gives one query group: the group's
/// name, the name of the field that holds its storage, and its group index.
pub struct GroupPlan {
    pub name: String,
    pub field_name: String,
    pub group_index: u16,
}

/// Why a database declaration could not be composed.
#[derive(Clone, Copy, Debug, PartialEq, Eq, Structural)]
pub enum ComposeError {
    /// The group list is not a comma-separated list of paths, each with a
    /// last segment to name its group by.
    Syntax,
    /// More groups than a `u16` group index can tell apart.
    TooManyGroups,
}

/// Group `i` of a composition is planned from `name`.
pub open spec fn plans(p: GroupPlan, name: Seq<char>, i: int) -> bool {
    &&& p.name@ == name
    &&& p.field_name@ == snake_case_of(name)
    &&& p.group_index == i
}

/// Plans the storage of the groups `names`, in the order given: group `i`
/// gets index `i` and a field named by the snake case of its name.
pub fn plan_groups(names: &Vec<String>) -> (r: Result<Vec<GroupPlan>, ComposeError>)
    ensures
        names.len() > 0x10000 <==> r is Err,
        r is Err ==> r == Err::<Vec<GroupPlan>, ComposeError>(ComposeError::TooManyGroups),
        r matches Ok(v) ==> v.len() == names.len()
            && forall|i: int| 0 <= i < v.len() ==> plans(#[trigger] v[i], names[i]@, i),
{
    if names.len() > 0x10000 {
        return Err(ComposeError::TooManyGroups);
    }
    let mut out: Vec<GroupPlan> = Vec::new();
    let mut i: usize = 0;
    while i < names.len()
        invariant
            names.len() <= 0x10000,
            i <= names.len(),
            out.len() == i,
            forall|j: int| 0 <= j < i ==> plans(#[trigger] out[j], names[j]@, j),
        decreases names.len() - i,
    {
        let name = names[i].clone();
        let field_name = to_snake_case(names[i].as_str());
        out.push(GroupPlan { name, field_name, group_index: i as u16 });
        i = i + 1;
    }
    Ok(out)
}

/// Composes a database from its declared group list `args` (for example
/// `hello::HelloWorld, Other`): parses the list, names each group by the last
/// segment of its path and plans the groups in order.
pub fn compose(args: &str) -> (r: Result<Vec<GroupPlan>, ComposeError>)
    ensures
        parsed_group_paths(args@) is None ==> r == Err::<Vec<GroupPlan>, ComposeError>(ComposeError::Syntax),
        parsed_group_paths(args@) matches Some(list) ==> {
            &&& (exists|i: int| 0 <= i < list.len() && last_segment(list[i]) is None)
                ==> r == Err::<Vec<GroupPlan>, ComposeError>(ComposeError::Syntax)
            &&& (forall|i: int| 0 <= i < list.len() ==> last_segment(list[i]) is Some) && list.len() > 0x10000
                ==> r == Err::<Vec<GroupPlan>, ComposeError>(ComposeError::TooManyGroups)
            &&& (forall|i: int| 0 <= i < list.len() ==> last_segment(list[i]) is Some) && list.len() <= 0x10000
                ==> (r matches Ok(v) && v.len() == list.len()
                && forall|i: int| 0 <= i < v.len() ==> plans(#[trigger] v[i], last_segment(list[i])->Some_0, i))
        },
{
    let parsed = match parse_group_list(args) {
        Some(p) => p,
        None => return Err(ComposeError::Syntax),
    };
    let ghost list = parsed_group_paths(args@)->Some_0;
    assert(list.len() == parsed@.len());
    let mut names: Vec<String> = Vec::new();
    let mut i: usize = 0;
    while i < parsed.len()
        invariant
            i <= parsed.len(),
            parsed_group_paths(args@) == Some(list),
            list.len() == parsed.len(),
            forall|j: int| 0 <= j < parsed.len() ==> list[j] == (#[trigger] parsed@[j])@.map_values(|x: String| x@),
            names.len() == i,
            forall|j: int| 0 <= j < i ==> last_segment(list[j]) == Some(#[trigger] names@[j]@),
        decreases parsed.len() - i,
    {
        match group_name(&parsed[i]) {
            Some(n) => names.push(n),
            None => {
                assert(last_segment(list[i as int]) is None);
                return Err(ComposeError::Syntax);
            },
        }
        i = i + 1;
    }
    assert forall|j: int| 0 <= j < list.len() implies last_segment(list[j]) is Some by {
        assert(last_segment(list[j]) == Some(names@[j]@));
    }
    let r = plan_groups(&names);
    if let Ok(v) = &r {
        assert forall|j: int| 0 <= j < v.len() implies plans(#[trigger] v[j], last_segment(list[j])->Some_0, j) by {
            assert(last_segment(list[j]) == Some(names@[j]@));
        }
    }
    r
}

} // verus!
