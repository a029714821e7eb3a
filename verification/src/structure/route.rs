//! The routes of an Angular application: which components each route path
//! shows, read from the route lists of its routing modules.
use vstd::prelude::*;
use crate::component::{
    lemma_position_of, names_of, position_of, AngularComponent, AngularComponents, ComponentView,
};
use crate::patterns::{
    pcre_captures, pcre_captures_of, regex_set_matches, regex_set_matches_of, BLOCK, CHILDREN,
    COMPONENT, LOAD, PATH, ROUTES,
};
use crate::strings::clone_strings;
use crate::structure::utilities::{capture_first, first_capture, replace_extension, replace_extension_spec};

verus! {

broadcast use vstd::string::group_string_axioms;

/// Why the routes of an application could not be read.
///
/// `Pattern`, `MissingCapture` and `NotNested` cannot come from the patterns
/// of this crate: they name what the engines' results would have to look
/// like for the reading to go wrong, since those results are not modelled
/// here. A circle of references or of lazily loaded modules is reported
/// where following it would never end.
#[derive(Debug)]
pub enum RouteError {
    /// A pattern was refused by its regular-expression engine.
    Pattern,
    /// A match lacked a capture group that its pattern always fills.
    MissingCapture,
    /// The routing file has no route list.
    NoRoutes(String),
    /// No source declares a component or routing file of this name.
    UnknownComponent(String),
    /// Components refer to each other in a circle, starting from this one.
    ComponentCycle(String),
    /// Routing files load each other in a circle, starting from this one.
    LoadCycle(String),
    /// A `children` list is not shorter than the route text that holds it.
    NotNested,
}

/// The mathematical value of a `RouteError`.
pub ghost enum RouteFault {
    Pattern,
    MissingCapture,
    NoRoutes(Seq<char>),
    UnknownComponent(Seq<char>),
    ComponentCycle(Seq<char>),
    LoadCycle(Seq<char>),
    NotNested,
}

impl View for RouteError {
    type V = RouteFault;

    open spec fn view(&self) -> RouteFault {
        match self {
            RouteError::Pattern => RouteFault::Pattern,
            RouteError::MissingCapture => RouteFault::MissingCapture,
            RouteError::NoRoutes(s) => RouteFault::NoRoutes(s@),
            RouteError::UnknownComponent(s) => RouteFault::UnknownComponent(s@),
            RouteError::ComponentCycle(s) => RouteFault::ComponentCycle(s@),
            RouteError::LoadCycle(s) => RouteFault::LoadCycle(s@),
            RouteError::NotNested => RouteFault::NotNested,
        }
    }
}

/// The route paths with the components each shows, in the order the paths
/// were first met.
pub struct AngularRoutes {
    pub value: Vec<(String, Vec<String>)>,
}

/// The mathematical value of a route table.
pub type RouteTable = Seq<(Seq<char>, Seq<Seq<char>>)>;

impl View for AngularRoutes {
    type V = RouteTable;

    open spec fn view(&self) -> RouteTable {
        self.value.deep_view()
    }
}

// ---------------------------------------------------------------------------
// Mathematical model
// ---------------------------------------------------------------------------

/// The index of the last entry for `path`, or -1.
pub open spec fn route_position(t: RouteTable, path: Seq<char>) -> int
    decreases t.len(),
{
    if t.len() == 0 {
        -1
    } else if t.last().0 == path {
        t.len() - 1
    } else {
        route_position(t.drop_last(), path)
    }
}

/// The components listed for `path` (none when the path has no entry).
pub open spec fn route_components(t: RouteTable, path: Seq<char>) -> Seq<Seq<char>> {
    let p = route_position(t, path);
    if p >= 0 {
        t[p].1
    } else {
        Seq::<Seq<char>>::empty()
    }
}

/// `t` with `items` added to the end of the list of `path`; a path without
/// an entry gets a new entry at the end.
pub open spec fn add_components(t: RouteTable, path: Seq<char>, items: Seq<Seq<char>>) -> RouteTable {
    let p = route_position(t, path);
    if p >= 0 {
        t.update(p, (path, t[p].1 + items))
    } else {
        t.push((path, items))
    }
}

/// The names on a stack are distinct and each is declared by a component.
pub open spec fn stack_ok(comps: Seq<ComponentView>, stack: Seq<Seq<char>>) -> bool {
    &&& stack.no_duplicates()
    &&& forall|i: int| 0 <= i < stack.len() ==> position_of(comps, #[trigger] stack[i]) >= 0
}

/// A stack of distinct declared names can grow by another declared name,
/// and is then still no longer than the list of components.
pub proof fn lemma_stack_grows(comps: Seq<ComponentView>, stack: Seq<Seq<char>>, name: Seq<char>)
    requires
        stack_ok(comps, stack),
        !stack.contains(name),
        position_of(comps, name) >= 0,
    ensures
        stack_ok(comps, stack.push(name)),
        stack.len() + 1 <= comps.len(),
{
    let s2 = stack.push(name);
    assert(s2.no_duplicates()) by {
        assert forall|i: int, j: int| 0 <= i < s2.len() && 0 <= j < s2.len() && i != j implies s2[i] != s2[j] by {
            if i == stack.len() {
                assert(stack[j] == s2[j]);
            } else if j == stack.len() {
                assert(stack[i] == s2[i]);
            }
        }
    }
    assert forall|i: int| 0 <= i < s2.len() implies position_of(comps, #[trigger] s2[i]) >= 0 by {
        if i < stack.len() {
            assert(s2[i] == stack[i]);
        }
    }
    let names = names_of(comps);
    assert(s2.to_set().subset_of(names.to_set())) by {
        assert forall|x: Seq<char>| s2.to_set().contains(x) implies names.to_set().contains(x) by {
            let i = choose|i: int| 0 <= i < s2.len() && s2[i] == x;
            lemma_position_of(comps, x);
            let p = position_of(comps, x);
            assert(names[p] == x);
        }
    }
    s2.unique_seq_to_set();
    vstd::seq_lib::seq_to_set_is_finite(names);
    vstd::set_lib::lemma_len_subset(s2.to_set(), names.to_set());
    names.lemma_cardinality_of_set();
}

/// The components reached from `name` by following references depth
/// first, each listed when it is followed. `stack` holds the names whose
/// references are being followed; meeting one of them again means the
/// references go round in a circle.
pub open spec fn expand_name(comps: Seq<ComponentView>, name: Seq<char>, stack: Seq<Seq<char>>) -> Result<Seq<Seq<char>>, RouteFault>
    decreases comps.len() - stack.len(), 0int, 0int
    when stack_ok(comps, stack)
{
    let p = position_of(comps, name);
    if p < 0 {
        Err(RouteFault::UnknownComponent(name))
    } else if stack.contains(name) {
        Err(RouteFault::ComponentCycle(name))
    } else {
        proof {
            lemma_stack_grows(comps, stack, name);
        }
        expand_list(comps, comps[p].used_components(), stack.push(name))
    }
}

/// `expand_name` for each of `names` in turn, each name followed by what it
/// reaches.
pub open spec fn expand_list(comps: Seq<ComponentView>, names: Seq<Seq<char>>, stack: Seq<Seq<char>>) -> Result<Seq<Seq<char>>, RouteFault>
    decreases comps.len() - stack.len(), 1int, names.len()
    when stack_ok(comps, stack)
{
    if names.len() == 0 {
        Ok(Seq::<Seq<char>>::empty())
    } else {
        match expand_name(comps, names[0], stack) {
            Err(e) => Err(e),
            Ok(d) => match expand_list(comps, names.drop_first(), stack) {
                Err(e) => Err(e),
                Ok(rest) => Ok(seq![names[0]] + d + rest),
            },
        }
    }
}

/// The patterns that tell which entries a route has, by index: a path, a
/// component, a lazily loaded module, children.
pub open spec fn route_patterns() -> Seq<Seq<char>> {
    seq![PATH@, COMPONENT@, LOAD@, CHILDREN@]
}

/// The file-name ending of a routing module.
pub open spec fn routing_ts() -> Seq<char> {
    seq!['r', 'o', 'u', 't', 'i', 'n', 'g', '.', 't', 's']
}

/// Reads a route list: each top-level `{...}` block of `text` is one route,
/// handled in turn from the table `table`. `path` is the path the routes
/// extend, `main` the components inherited from the parent route, and
/// `loaded` the routing files being read.
pub open spec fn walk_text(
    comps: Seq<ComponentView>,
    text: Seq<char>,
    path: Seq<char>,
    main: Option<Seq<Seq<char>>>,
    loaded: Seq<Seq<char>>,
    table: RouteTable,
) -> Result<RouteTable, RouteFault>
    decreases comps.len() - loaded.len(), text.len(), 3int, 0int
    when stack_ok(comps, loaded)
{
    match pcre_captures(BLOCK@, text) {
        None => Err(RouteFault::Pattern),
        Some(blocks) => walk_blocks(comps, blocks, text.len(), path, main, loaded, table),
    }
}

/// The route blocks in turn; `bound` is the length of the text they came
/// from.
pub open spec fn walk_blocks(
    comps: Seq<ComponentView>,
    blocks: Seq<Seq<Option<Seq<char>>>>,
    bound: nat,
    path: Seq<char>,
    main: Option<Seq<Seq<char>>>,
    loaded: Seq<Seq<char>>,
    table: RouteTable,
) -> Result<RouteTable, RouteFault>
    decreases comps.len() - loaded.len(), bound, 2int, blocks.len()
    when stack_ok(comps, loaded)
{
    if blocks.len() == 0 {
        Ok(table)
    } else if !(blocks[0].len() > 1 && blocks[0][1] is Some) {
        Err(RouteFault::MissingCapture)
    } else {
        match walk_block(comps, blocks[0][1].unwrap(), bound, path, main, loaded, table) {
            Err(e) => Err(e),
            Ok(t) => walk_blocks(comps, blocks.drop_first(), bound, path, main, loaded, t),
        }
    }
}

/// One route block: its entries, in the order of `route_patterns`.
pub open spec fn walk_block(
    comps: Seq<ComponentView>,
    group: Seq<char>,
    bound: nat,
    path: Seq<char>,
    main: Option<Seq<Seq<char>>>,
    loaded: Seq<Seq<char>>,
    table: RouteTable,
) -> Result<RouteTable, RouteFault>
    decreases comps.len() - loaded.len(), bound, 1int, 0int
    when stack_ok(comps, loaded)
{
    match regex_set_matches(route_patterns(), group) {
        None => Err(RouteFault::Pattern),
        Some(items) => walk_items(comps, group, items, bound, path, Seq::<Seq<char>>::empty(), main, loaded, table),
    }
}

/// The entries of one route block. A path entry extends the path (an empty
/// path becomes `/`); a component entry adds the component, what it
/// reaches and the inherited components to the route of the path; a lazily
/// loaded module has its own route list read under the path; children are
/// read under the path, inheriting the components of this route.
pub open spec fn walk_items(
    comps: Seq<ComponentView>,
    group: Seq<char>,
    items: Seq<usize>,
    bound: nat,
    path: Seq<char>,
    previous: Seq<Seq<char>>,
    main: Option<Seq<Seq<char>>>,
    loaded: Seq<Seq<char>>,
    table: RouteTable,
) -> Result<RouteTable, RouteFault>
    decreases comps.len() - loaded.len(), bound, 0int, items.len()
    when stack_ok(comps, loaded)
{
    if items.len() == 0 {
        Ok(table)
    } else {
        let rest = items.drop_first();
        let item = items[0];
        if item == 0 {
            match first_capture(PATH@, group) {
                None => Err(RouteFault::MissingCapture),
                Some(p) => {
                    let joined = path + p;
                    let next = if joined.len() == 0 { seq!['/'] } else { joined };
                    walk_items(comps, group, rest, bound, next, previous, main, loaded, table)
                },
            }
        } else if item == 1 {
            match first_capture(COMPONENT@, group) {
                None => Err(RouteFault::MissingCapture),
                Some(c) => match expand_name(comps, c, Seq::<Seq<char>>::empty()) {
                    Err(e) => Err(e),
                    Ok(d) => {
                        let extra = match main {
                            Some(m) => m,
                            None => Seq::<Seq<char>>::empty(),
                        };
                        let t2 = add_components(table, path, seq![c] + d + extra);
                        walk_items(comps, group, rest, bound, path, route_components(t2, path), main, loaded, t2)
                    },
                },
            }
        } else if item == 2 {
            match first_capture(LOAD@, group) {
                None => walk_items(comps, group, rest, bound, path, previous, main, loaded, table),
                Some(c) => {
                    let file = replace_extension_spec(c, routing_ts());
                    let p = position_of(comps, file);
                    if p < 0 {
                        Err(RouteFault::UnknownComponent(file))
                    } else if loaded.contains(file) {
                        Err(RouteFault::LoadCycle(file))
                    } else {
                        match first_capture(ROUTES@, comps[p].ts_source) {
                            None => Err(RouteFault::NoRoutes(file)),
                            Some(routes) => {
                                proof {
                                    lemma_stack_grows(comps, loaded, file);
                                }
                                match walk_text(comps, routes, path, None, loaded.push(file), table) {
                                    Err(e) => Err(e),
                                    Ok(t2) => walk_items(comps, group, rest, bound, path, previous, main, loaded, t2),
                                }
                            },
                        }
                    }
                },
            }
        } else if item == 3 {
            match first_capture(CHILDREN@, group) {
                None => Err(RouteFault::MissingCapture),
                Some(children) => if children.len() >= bound {
                    Err(RouteFault::NotNested)
                } else {
                    match walk_text(comps, children, path, Some(previous), loaded, table) {
                        Err(e) => Err(e),
                        Ok(t2) => walk_items(comps, group, rest, bound, path, previous, main, loaded, t2),
                    }
                },
            }
        } else {
            walk_items(comps, group, rest, bound, path, previous, main, loaded, table)
        }
    }
}

/// `s` without repeated entries: each entry is kept where it first occurs.
pub open spec fn dedup(s: Seq<Seq<char>>) -> Seq<Seq<char>>
    decreases s.len(),
{
    if s.len() == 0 {
        s
    } else if s.drop_last().contains(s.last()) {
        dedup(s.drop_last())
    } else {
        dedup(s.drop_last()).push(s.last())
    }
}

/// A route entry with its component list freed of repeats.
pub open spec fn dedup_entry(e: (Seq<char>, Seq<Seq<char>>)) -> (Seq<char>, Seq<Seq<char>>) {
    (e.0, dedup(e.1))
}

/// Every route entry with its component list freed of repeats.
pub open spec fn dedup_table(t: RouteTable) -> RouteTable {
    t.map_values(|e: (Seq<char>, Seq<Seq<char>>)| dedup_entry(e))
}

/// The routes of the routing module `component`: its route list read from
/// the root path with no inherited components, then each route's component
/// list freed of repeats.
pub open spec fn routes_of(comps: Seq<ComponentView>, component: ComponentView) -> Result<RouteTable, RouteFault> {
    match first_capture(ROUTES@, component.ts_source) {
        None => Err(RouteFault::NoRoutes(component.file_name)),
        Some(routes) => match walk_text(comps, routes, Seq::<char>::empty(), None, Seq::<Seq<char>>::empty(), Seq::empty()) {
            Err(e) => Err(e),
            Ok(t) => Ok(dedup_table(t)),
        },
    }
}

/// `r` with `acc` put in front of its value, when it has one.
pub open spec fn prepend_ok(acc: Seq<Seq<char>>, r: Result<Seq<Seq<char>>, RouteFault>) -> Result<Seq<Seq<char>>, RouteFault> {
    match r {
        Ok(x) => Ok(acc + x),
        Err(e) => Err(e),
    }
}

// ---------------------------------------------------------------------------
// Executable code
// ---------------------------------------------------------------------------

/// Whether `x` is among the first `upto` texts of `v`.
pub fn contains_text(v: &Vec<String>, upto: usize, x: &String) -> (r: bool)
    requires
        upto <= v.len(),
    ensures
        r == v.deep_view().take(upto as int).contains(x@),
{
    let ghost s = v.deep_view().take(upto as int);
    let mut i: usize = 0;
    while i < upto
        invariant
            i <= upto <= v.len(),
            s == v.deep_view().take(upto as int),
            forall|k: int| 0 <= k < i ==> s[k] != x@,
        decreases upto - i,
    {
        if v[i] == *x {
            assert(s[i as int] == x@);
            return true;
        }
        i = i + 1;
    }
    false
}

/// The texts of `v` without repeats, each kept where it first occurs.
pub fn dedup_strings(v: &Vec<String>) -> (r: Vec<String>)
    ensures
        r.deep_view() == dedup(v.deep_view()),
{
    let ghost vv = v.deep_view();
    let mut r: Vec<String> = Vec::new();
    let mut i: usize = 0;
    assert(vv.take(0) =~= Seq::<Seq<char>>::empty());
    while i < v.len()
        invariant
            i <= v.len(),
            vv == v.deep_view(),
            r.deep_view() == dedup(vv.take(i as int)),
        decreases v.len() - i,
    {
        assert(vv.take(i + 1).drop_last() =~= vv.take(i as int));
        assert(vv.take(i + 1).last() == vv[i as int]);
        let seen = contains_text(v, i, &v[i]);
        if !seen {
            let c = v[i].clone();
            let ghost old_r = r.deep_view();
            r.push(c);
            assert(r.deep_view() =~= old_r.push(vv[i as int]));
        }
        i = i + 1;
    }
    assert(vv.take(v.len() as int) =~= vv);
    r
}

impl AngularRoutes {
    /// A table without routes.
    pub fn empty() -> (r: AngularRoutes)
        ensures
            r@ == Seq::<(Seq<char>, Seq<Seq<char>>)>::empty(),
    {
        let r = AngularRoutes { value: Vec::new() };
        assert(r@ =~= Seq::<(Seq<char>, Seq<Seq<char>>)>::empty());
        r
    }

    /// Where the entry of `path` stands, if anywhere.
    pub fn route_position(&self, path: &String) -> (r: Option<usize>)
        ensures
            r matches Some(i) ==> i == route_position(self@, path@) && i < self@.len(),
            r is None ==> route_position(self@, path@) == -1,
    {
        let mut i = self.value.len();
        assert(self@.take(i as int) =~= self@);
        while i > 0
            invariant
                i <= self.value.len(),
                route_position(self@, path@) == route_position(self@.take(i as int), path@),
            decreases i,
        {
            assert(self@.take(i as int).drop_last() =~= self@.take(i - 1));
            assert(self@.take(i as int).last() == self@[i - 1]);
            if self.value[i - 1].0 == *path {
                return Some(i - 1);
            }
            i = i - 1;
        }
        None
    }

    /// The components listed for `path`.
    pub fn components_of(&self, path: &String) -> (r: Vec<String>)
        ensures
            r.deep_view() == route_components(self@, path@),
    {
        match self.route_position(path) {
            Some(i) => clone_strings(&self.value[i].1),
            None => Vec::new(),
        }
    }

    /// Adds `items` to the end of the list of `path`, making an entry for the
    /// path when it has none.
    pub fn add_components(&mut self, path: &String, items: Vec<String>)
        ensures
            final(self)@ == add_components(old(self)@, path@, items.deep_view()),
            paths_distinct(old(self)@) ==> paths_distinct(final(self)@),
            table_extends(old(self)@, final(self)@),
    {
        proof {
            lemma_add_components_extends(self@, path@, items.deep_view());
        }
        proof {
            if paths_distinct(self@) {
                lemma_add_components_paths_distinct(self@, path@, items.deep_view());
            }
        }
        match self.route_position(path) {
            Some(i) => {
                let mut list = clone_strings(&self.value[i].1);
                let ghost a = list.deep_view();
                let mut more = items;
                let ghost b = more.deep_view();
                list.append(&mut more);
                assert(list.deep_view() =~= a + b);
                let ghost entry = (path@, list.deep_view());
                self.value.set(i, (path.clone(), list));
                assert(self@ =~= old(self)@.update(i as int, entry));
            },
            None => {
                let ghost entry = (path@, items.deep_view());
                self.value.push((path.clone(), items));
                assert(self@ =~= old(self)@.push(entry));
            },
        }
    }

    /// Frees the component list of every route of repeats.
    pub fn dedup(&mut self)
        ensures
            final(self)@ == dedup_table(old(self)@),
    {
        let ghost t = self@;
        let mut value: Vec<(String, Vec<String>)> = Vec::new();
        let mut i: usize = 0;
        while i < self.value.len()
            invariant
                i <= self.value.len(),
                t == self@,
                value.deep_view() == dedup_table(t.take(i as int)),
            decreases self.value.len() - i,
        {
            let list = dedup_strings(&self.value[i].1);
            let ghost entry = (self.value[i as int].0@, list.deep_view());
            assert(entry == dedup_entry(t[i as int]));
            let ghost old_v = value.deep_view();
            value.push((self.value[i].0.clone(), list));
            assert(value.deep_view() =~= old_v.push(entry));
            assert(dedup_table(t.take(i + 1)) =~= dedup_table(t.take(i as int)).push(dedup_entry(t[i as int])));
            i = i + 1;
        }
        assert(t.take(t.len() as int) =~= t);
        self.value = value;
    }

    /// Reads the route list `routes` under `path` into the table (see
    /// `walk_text`), on route lists that can be read: every component and
    /// routing file they name is declared, every routing file has a route
    /// list, and neither references nor lazily loaded modules go round in a
    /// circle.
    pub fn setup_route_hierarchy(
        &mut self,
        routes: &String,
        path: &String,
        main_components: Option<Vec<String>>,
        components: &AngularComponents,
        loaded: &Vec<String>,
    )
        requires
            stack_ok(components@, loaded.deep_view()),
            walk_text(components@, routes@, path@, main_components.deep_view(), loaded.deep_view(), old(self)@) is Ok,
        ensures
            final(self)@ == walk_text(components@, routes@, path@, main_components.deep_view(), loaded.deep_view(), old(self)@)->Ok_0,
            table_extends(old(self)@, final(self)@),
    {
        proof {
            lemma_walk_text_extends(components@, routes@, path@, main_components.deep_view(), loaded.deep_view(), self@);
        }
        match self.try_setup_route_hierarchy(routes, path, main_components, components, loaded) {
            Ok(()) => {},
            Err(_) => {},
        }
    }

    /// Reads the routes of the routing module `component` (see `routes_of`),
    /// when they can be read: its route list exists and the walk through it
    /// meets neither an undeclared name nor a circle.
    pub fn new(component: &AngularComponent, components: &AngularComponents) -> (r: AngularRoutes)
        requires
            routes_of(components@, component@) is Ok,
        ensures
            r@ == routes_of(components@, component@)->Ok_0,
            paths_distinct(r@),
    {
        proof {
            lemma_routes_paths_distinct(components@, component@);
        }
        match Self::try_new(component, components) {
            Ok(r) => r,
            Err(_) => AngularRoutes::empty(),
        }
    }

    /// Lists in `found`, depth first, the components reached from the
    /// component `name`, each when its reference is followed, on names from
    /// which every reached name is declared and no circle is reached.
    pub fn find_components(&self, name: &String, found: &mut Vec<String>, components: &AngularComponents, stack: &Vec<String>)
        requires
            stack_ok(components@, stack.deep_view()),
            expand_name(components@, name@, stack.deep_view()) is Ok,
        ensures
            final(found).deep_view() == old(found).deep_view() + expand_name(components@, name@, stack.deep_view())->Ok_0,
    {
        match self.try_find_components(name, found, components, stack) {
            Ok(()) => {},
            Err(_) => {},
        }
    }

    /// Reads the route list `routes` under `path` into the table (see
    /// `walk_text`), or tells why it cannot. `loaded` holds the routing files
    /// being read.
    pub fn try_setup_route_hierarchy(
        &mut self,
        routes: &String,
        path: &String,
        main_components: Option<Vec<String>>,
        components: &AngularComponents,
        loaded: &Vec<String>,
    ) -> (r: Result<(), RouteError>)
        requires
            stack_ok(components@, loaded.deep_view()),
        ensures
            match walk_text(components@, routes@, path@, main_components.deep_view(), loaded.deep_view(), old(self)@) {
                Ok(t) => r is Ok && final(self)@ == t,
                Err(e) => r matches Err(x) && x@ == e,
            },
            r is Ok ==> table_extends(old(self)@, final(self)@),
        decreases components@.len() - loaded.deep_view().len(), routes@.len(), 1int,
    {
        let ghost comps = components@;
        let ghost mv = main_components.deep_view();
        let ghost lv = loaded.deep_view();
        proof {
            lemma_walk_text_extends(components@, routes@, path@, main_components.deep_view(), loaded.deep_view(), self@);
        }
        let ghost t0 = self@;
        let blocks = match pcre_captures_of(BLOCK, routes.as_str()) {
            None => {
                return Err(RouteError::Pattern);
            },
            Some(b) => b,
        };
        let bound = crate::strings::chars_of(routes.as_str()).len();
        let ghost bv = blocks.deep_view();
        assert(bv.skip(0) =~= bv);
        let mut i: usize = 0;
        while i < blocks.len()
            invariant
                i <= blocks.len(),
                bv == blocks.deep_view(),
                bound == routes@.len(),
                comps == components@,
                lv == loaded.deep_view(),
                mv == main_components.deep_view(),
                stack_ok(comps, lv),
                t0 == old(self)@,
                walk_text(comps, routes@, path@, mv, lv, t0) == walk_blocks(comps, bv.skip(i as int), bound as nat, path@, mv, lv, self@),
            decreases blocks.len() - i,
        {
            let ghost rest = bv.skip(i as int);
            assert(rest[0] == blocks[i as int].deep_view());
            assert(rest.drop_first() =~= bv.skip(i + 1));
            if !(blocks[i].len() > 1 && blocks[i][1].is_some()) {
                return Err(RouteError::MissingCapture);
            }
            let group = match &blocks[i][1] {
                Some(g) => g.clone(),
                None => {
                    return Err(RouteError::MissingCapture);
                },
            };
            match self.route_block(&group, bound, path, &main_components, components, loaded) {
                Err(e) => {
                    return Err(e);
                },
                Ok(()) => {},
            }
            i = i + 1;
        }
        Ok(())
    }

    /// Reads one route block (see `walk_block`); `bound` is the length of
    /// the route text it came from.
    fn route_block(
        &mut self,
        group: &String,
        bound: usize,
        path: &String,
        main_components: &Option<Vec<String>>,
        components: &AngularComponents,
        loaded: &Vec<String>,
    ) -> (r: Result<(), RouteError>)
        requires
            stack_ok(components@, loaded.deep_view()),
        ensures
            match walk_block(components@, group@, bound as nat, path@, main_components.deep_view(), loaded.deep_view(), old(self)@) {
                Ok(t) => r is Ok && final(self)@ == t,
                Err(e) => r matches Err(x) && x@ == e,
            },
        decreases components@.len() - loaded.deep_view().len(), bound, 0int,
    {
        let ghost comps = components@;
        let ghost mv = main_components.deep_view();
        let ghost lv = loaded.deep_view();
        let ghost t0 = self@;
        let patterns: Vec<&str> = vec![PATH, COMPONENT, LOAD, CHILDREN];
        assert(patterns.deep_view() =~= route_patterns());
        let items = match regex_set_matches_of(&patterns, group.as_str()) {
            None => {
                return Err(RouteError::Pattern);
            },
            Some(items) => items,
        };
        let ghost iv = items@;
        assert(items.deep_view() =~= iv);
        assert(iv.skip(0) =~= iv);
        let mut cur_path = path.clone();
        let mut previous: Vec<String> = Vec::new();
        assert(previous.deep_view() =~= Seq::<Seq<char>>::empty());
        let mut k: usize = 0;
        while k < items.len()
            invariant
                k <= items.len(),
                iv == items@,
                comps == components@,
                lv == loaded.deep_view(),
                mv == main_components.deep_view(),
                stack_ok(comps, lv),
                t0 == old(self)@,
                walk_block(comps, group@, bound as nat, path@, mv, lv, t0)
                    == walk_items(comps, group@, iv.skip(k as int), bound as nat, cur_path@, previous.deep_view(), mv, lv, self@),
            decreases items.len() - k,
        {
            let ghost rest = iv.skip(k as int);
            assert(rest[0] == items[k as int]);
            assert(rest.drop_first() =~= iv.skip(k + 1));
            let item = items[k];
            if item == 0 {
                match capture_first(PATH, group.as_str()) {
                    None => {
                        return Err(RouteError::MissingCapture);
                    },
                    Some(p) => {
                        cur_path.append(p.as_str());
                        if cur_path.as_str().is_empty() {
                            cur_path = String::new();
                            cur_path.append("/");
                            proof {
                                reveal_strlit("/");
                                assert(cur_path@ =~= seq!['/']);
                            }
                        }
                    },
                }
            } else if item == 1 {
                match capture_first(COMPONENT, group.as_str()) {
                    None => {
                        return Err(RouteError::MissingCapture);
                    },
                    Some(c) => {
                        let mut found: Vec<String> = Vec::new();
                        found.push(c.clone());
                        let stack: Vec<String> = Vec::new();
                        assert(stack.deep_view() =~= Seq::<Seq<char>>::empty());
                        let ghost f0 = found.deep_view();
                        assert(f0 =~= seq![c@]);
                        match self.try_find_components(&c, &mut found, components, &stack) {
                            Err(e) => {
                                return Err(e);
                            },
                            Ok(()) => {},
                        }
                        let ghost f1 = found.deep_view();
                        match main_components {
                            Some(m) => {
                                let mut extra = clone_strings(m);
                                found.append(&mut extra);
                                assert(found.deep_view() =~= f1 + m.deep_view());
                            },
                            None => {
                                assert(found.deep_view() =~= f1 + Seq::<Seq<char>>::empty());
                            },
                        }
                        self.add_components(&cur_path, found);
                        previous = self.components_of(&cur_path);
                    },
                }
            } else if item == 2 {
                match capture_first(LOAD, group.as_str()) {
                    None => {},
                    Some(c) => {
                        proof {
                            reveal_strlit("routing.ts");
                            assert("routing.ts".view() =~= routing_ts());
                        }
                        let file = replace_extension(&c, "routing.ts");
                        let p = match components.position(file.as_str()) {
                            None => {
                                return Err(RouteError::UnknownComponent(file));
                            },
                            Some(p) => p,
                        };
                        if contains_text(loaded, loaded.len(), &file) {
                            assert(lv.take(loaded.len() as int) =~= lv);
                            return Err(RouteError::LoadCycle(file));
                        }
                        assert(lv.take(loaded.len() as int) =~= lv);
                        assert(comps[p as int] == components.value[p as int]@);
                        let routes = match capture_first(ROUTES, components.value[p].ts_source.as_str()) {
                            None => {
                                return Err(RouteError::NoRoutes(file));
                            },
                            Some(routes) => routes,
                        };
                        proof {
                            lemma_stack_grows(comps, lv, file@);
                        }
                        let mut next_loaded = clone_strings(loaded);
                        next_loaded.push(file.clone());
                        assert(next_loaded.deep_view() =~= lv.push(file@));
                        match self.try_setup_route_hierarchy(&routes, &cur_path, None, components, &next_loaded) {
                            Err(e) => {
                                return Err(e);
                            },
                            Ok(()) => {},
                        }
                    },
                }
            } else if item == 3 {
                match capture_first(CHILDREN, group.as_str()) {
                    None => {
                        return Err(RouteError::MissingCapture);
                    },
                    Some(children) => {
                        let len = crate::strings::chars_of(children.as_str()).len();
                        if len >= bound {
                            return Err(RouteError::NotNested);
                        }
                        let inherited = clone_strings(&previous);
                        match self.try_setup_route_hierarchy(&children, &cur_path, Some(inherited), components, loaded) {
                            Err(e) => {
                                return Err(e);
                            },
                            Ok(()) => {},
                        }
                    },
                }
            }
            k = k + 1;
        }
        Ok(())
    }

    /// Reads the routes of the routing module `component`, following its
    /// references into `components` (see `routes_of`), or tells why it
    /// cannot.
    pub fn try_new(component: &AngularComponent, components: &AngularComponents) -> (r: Result<AngularRoutes, RouteError>)
        ensures
            match routes_of(components@, component@) {
                Ok(t) => r matches Ok(x) && x@ == t,
                Err(e) => r matches Err(x) && x@ == e,
            },
            r matches Ok(x) ==> paths_distinct(x@),
    {
        proof {
            lemma_routes_paths_distinct(components@, component@);
        }
        let content = component.open_ts();
        let routes = match capture_first(ROUTES, content.as_str()) {
            None => {
                return Err(RouteError::NoRoutes(component.file_name.clone()));
            },
            Some(r) => r,
        };
        let mut result = AngularRoutes::empty();
        let loaded: Vec<String> = Vec::new();
        assert(loaded.deep_view() =~= Seq::<Seq<char>>::empty());
        let path = String::new();
        match result.try_setup_route_hierarchy(&routes, &path, None, components, &loaded) {
            Err(e) => Err(e),
            Ok(()) => {
                result.dedup();
                Ok(result)
            },
        }
    }

    /// Lists in `found`, depth first, the components reached from the
    /// component `name`, each when its reference is followed, or tells why it
    /// cannot. `stack` holds the components whose references are being
    /// followed.
    pub fn try_find_components(&self, name: &String, found: &mut Vec<String>, components: &AngularComponents, stack: &Vec<String>) -> (r: Result<(), RouteError>)
        requires
            stack_ok(components@, stack.deep_view()),
        ensures
            match expand_name(components@, name@, stack.deep_view()) {
                Ok(d) => r is Ok && final(found).deep_view() == old(found).deep_view() + d,
                Err(e) => r matches Err(x) && x@ == e,
            },
        decreases components@.len() - stack.deep_view().len(),
    {
        let ghost comps = components@;
        let p = match components.position(name.as_str()) {
            None => {
                return Err(RouteError::UnknownComponent(name.clone()));
            },
            Some(p) => p,
        };
        if contains_text(stack, stack.len(), name) {
            assert(stack.deep_view().take(stack.len() as int) =~= stack.deep_view());
            return Err(RouteError::ComponentCycle(name.clone()));
        }
        assert(stack.deep_view().take(stack.len() as int) =~= stack.deep_view());
        proof {
            lemma_stack_grows(comps, stack.deep_view(), name@);
        }
        let used = components.value[p].get_used_components();
        assert(comps[p as int] == components.value[p as int]@);
        let mut next_stack = clone_strings(stack);
        next_stack.push(name.clone());
        let ghost st2 = next_stack.deep_view();
        assert(st2 =~= stack.deep_view().push(name@));
        let ghost uv = used.deep_view();
        let ghost base = found.deep_view();
        let ghost mut acc = Seq::<Seq<char>>::empty();
        assert(uv.skip(0) =~= uv);
        assert(base + acc =~= base);
        assert(expand_name(comps, name@, stack.deep_view()) == expand_list(comps, uv, st2));
        let mut i: usize = 0;
        while i < used.len()
            invariant
                i <= used.len(),
                uv == used.deep_view(),
                st2 == next_stack.deep_view(),
                stack_ok(comps, st2),
                comps == components@,
                comps.len() - st2.len() < comps.len() - stack.deep_view().len(),
                comps.len() - st2.len() >= 0,
                found.deep_view() == base + acc,
                expand_name(comps, name@, stack.deep_view()) == expand_list(comps, uv, st2),
                expand_list(comps, uv, st2) == prepend_ok(acc, expand_list(comps, uv.skip(i as int), st2)),
            decreases used.len() - i,
        {
            let u = used[i].clone();
            assert(uv.skip(i as int)[0] == u@);
            assert(uv.skip(i as int).drop_first() =~= uv.skip(i + 1));
            let ghost before = found.deep_view();
            found.push(u.clone());
            assert(found.deep_view() =~= before.push(u@));
            match self.try_find_components(&u, found, components, &next_stack) {
                Err(e) => {
                    proof {
                        assert(expand_list(comps, uv.skip(i as int), st2) == Err::<Seq<Seq<char>>, RouteFault>(e@));
                    }
                    return Err(e);
                },
                Ok(()) => {},
            }
            proof {
                let d = expand_name(comps, u@, st2)->Ok_0;
                assert(found.deep_view() =~= base + (acc + seq![u@] + d));
                match expand_list(comps, uv.skip(i + 1), st2) {
                    Ok(rest) => {
                        assert(acc + (seq![u@] + d + rest) =~= acc + seq![u@] + d + rest);
                    },
                    Err(_) => {},
                }
                acc = acc + seq![u@] + d;
            }
            i = i + 1;
        }
        assert(uv.skip(used.len() as int) =~= Seq::<Seq<char>>::empty());
        assert(acc + Seq::<Seq<char>>::empty() =~= acc);
        Ok(())
    }
}

// ---------------------------------------------------------------------------
// Laws
// ---------------------------------------------------------------------------

/// Freeing a list of repeats keeps exactly its entries.
pub proof fn lemma_dedup_same_entries(s: Seq<Seq<char>>)
    ensures
        forall|x: Seq<char>| dedup(s).contains(x) <==> s.contains(x),
    decreases s.len(),
{
    if s.len() > 0 {
        let d = s.drop_last();
        lemma_dedup_same_entries(d);
        assert(s =~= d.push(s.last()));
        assert forall|x: Seq<char>| s.contains(x) <==> (d.contains(x) || x == s.last()) by {
            if s.contains(x) {
                let i = choose|i: int| 0 <= i < s.len() && s[i] == x;
                if i < d.len() {
                    assert(d[i] == x);
                }
            }
            if d.contains(x) {
                let i = choose|i: int| 0 <= i < d.len() && d[i] == x;
                assert(s[i] == x);
            }
            if x == s.last() {
                assert(s[s.len() - 1] == x);
            }
        }
        if !d.contains(s.last()) {
            let dd = dedup(d);
            assert forall|x: Seq<char>| dd.push(s.last()).contains(x) <==> (dd.contains(x) || x == s.last()) by {
                if dd.push(s.last()).contains(x) {
                    let i = choose|i: int| 0 <= i < dd.len() + 1 && dd.push(s.last())[i] == x;
                    if i < dd.len() {
                        assert(dd[i] == x);
                    }
                }
                if dd.contains(x) {
                    let i = choose|i: int| 0 <= i < dd.len() && dd[i] == x;
                    assert(dd.push(s.last())[i] == x);
                }
                if x == s.last() {
                    assert(dd.push(s.last())[dd.len() as int] == x);
                }
            }
        }
    }
}

/// A list freed of repeats has none.
pub proof fn lemma_dedup_no_duplicates(s: Seq<Seq<char>>)
    ensures
        dedup(s).no_duplicates(),
    decreases s.len(),
{
    if s.len() > 0 {
        let d = s.drop_last();
        lemma_dedup_no_duplicates(d);
        lemma_dedup_same_entries(d);
        if !d.contains(s.last()) {
            let r = dedup(s);
            assert forall|i: int, j: int| 0 <= i < r.len() && 0 <= j < r.len() && i != j implies r[i] != r[j] by {
                if i == r.len() - 1 && j < r.len() - 1 {
                    assert(dedup(d)[j] == r[j]);
                } else if j == r.len() - 1 && i < r.len() - 1 {
                    assert(dedup(d)[i] == r[i]);
                }
            }
        }
    }
}

/// The routes read from a routing module keep the paths of the walk in
/// their order, and list each component of a route once, with the same
/// components as the walk gave that route.
pub proof fn lemma_routes_free_of_repeats(comps: Seq<ComponentView>, component: ComponentView)
    ensures
        routes_of(comps, component) matches Ok(t) ==> forall|i: int| 0 <= i < t.len() ==> (#[trigger] t[i]).1.no_duplicates(),
        routes_of(comps, component) matches Ok(t) ==> exists|w: RouteTable| {
            &&& #[trigger] dedup_table(w) == t
            &&& w.len() == t.len()
            &&& forall|i: int| 0 <= i < t.len() ==> (#[trigger] t[i]).0 == w[i].0
            &&& forall|i: int, x: Seq<char>| 0 <= i < t.len() ==> (#[trigger] t[i].1.contains(x) <==> w[i].1.contains(x))
        },
{
    if let Ok(t) = routes_of(comps, component) {
        let routes = first_capture(ROUTES@, component.ts_source)->Some_0;
        let w = walk_text(comps, routes, Seq::<char>::empty(), None, Seq::<Seq<char>>::empty(), Seq::empty())->Ok_0;
        assert(t == dedup_table(w));
        assert forall|i: int| 0 <= i < t.len() implies (#[trigger] t[i]).1.no_duplicates() by {
            lemma_dedup_no_duplicates(w[i].1);
        }
        assert forall|i: int, x: Seq<char>| 0 <= i < t.len() implies (#[trigger] t[i].1.contains(x) <==> w[i].1.contains(x)) by {
            lemma_dedup_same_entries(w[i].1);
        }
    }
}

/// Every name of `names` is declared by a component.
pub open spec fn all_declared(comps: Seq<ComponentView>, names: Seq<Seq<char>>) -> bool {
    forall|i: int| 0 <= i < names.len() ==> position_of(comps, #[trigger] names[i]) >= 0
}

/// No two entries of the table are for the same path.
pub open spec fn paths_distinct(t: RouteTable) -> bool {
    forall|i: int, j: int| 0 <= i < j < t.len() ==> t[i].0 != t[j].0
}

/// Every listed component is declared, and no path has two entries.
pub open spec fn table_ok(comps: Seq<ComponentView>, t: RouteTable) -> bool {
    table_declared(comps, t) && paths_distinct(t)
}

/// Every component listed in the table is declared by a component.
pub open spec fn table_declared(comps: Seq<ComponentView>, t: RouteTable) -> bool {
    forall|i: int| 0 <= i < t.len() ==> all_declared(comps, #[trigger] t[i].1)
}

proof fn lemma_concat_declared(comps: Seq<ComponentView>, a: Seq<Seq<char>>, b: Seq<Seq<char>>)
    requires
        all_declared(comps, a),
        all_declared(comps, b),
    ensures
        all_declared(comps, a + b),
{
    assert forall|i: int| 0 <= i < (a + b).len() implies position_of(comps, #[trigger] (a + b)[i]) >= 0 by {
        if i < a.len() {
            assert((a + b)[i] == a[i]);
        } else {
            assert((a + b)[i] == b[i - a.len()]);
        }
    }
}

/// Adding components to a route keeps the paths of the table distinct.
pub proof fn lemma_add_components_paths_distinct(t: RouteTable, path: Seq<char>, items: Seq<Seq<char>>)
    requires
        paths_distinct(t),
    ensures
        paths_distinct(add_components(t, path, items)),
{
    lemma_route_position(t, path);
    let p = route_position(t, path);
    let t2 = add_components(t, path, items);
    assert forall|i: int, j: int| 0 <= i < j < t2.len() implies t2[i].0 != t2[j].0 by {
        if p < 0 && j == t.len() {
            assert(t2[i] == t[i]);
        } else {
            if i != p {
                assert(t2[i] == t[i]);
            }
            if j != p {
                assert(t2[j] == t[j]);
            }
        }
    }
}

proof fn lemma_add_components_declared(comps: Seq<ComponentView>, t: RouteTable, path: Seq<char>, items: Seq<Seq<char>>)
    requires
        table_ok(comps, t),
        all_declared(comps, items),
    ensures
        table_ok(comps, add_components(t, path, items)),
        all_declared(comps, route_components(add_components(t, path, items), path)),
{
    let p = route_position(t, path);
    if p >= 0 {
        lemma_route_position(t, path);
        lemma_concat_declared(comps, t[p].1, items);
    }
    let t2 = add_components(t, path, items);
    assert forall|i: int| 0 <= i < t2.len() implies all_declared(comps, #[trigger] t2[i].1) by {
        if p < 0 && i == t.len() {
            assert(t2[i].1 == items);
        } else if i != p {
            assert(t2[i] == t[i]);
        }
    }
    lemma_route_position(t2, path);
    lemma_add_components_paths_distinct(t, path, items);
}

/// A found route position lies in the table.
pub proof fn lemma_route_position(t: RouteTable, path: Seq<char>)
    ensures
        -1 <= route_position(t, path) < t.len(),
        route_position(t, path) >= 0 ==> t[route_position(t, path)].0 == path,
        route_position(t, path) < 0 ==> forall|i: int| 0 <= i < t.len() ==> t[i].0 != path,
        route_position(t, path) >= 0 ==> forall|i: int| route_position(t, path) < i < t.len() ==> t[i].0 != path,
    decreases t.len(),
{
    if t.len() > 0 {
        let d = t.drop_last();
        lemma_route_position(d, path);
        assert(forall|i: int| 0 <= i < d.len() ==> d[i] == t[i]);
    }
}

/// What following references from `name` lists is declared, `name` too.
pub proof fn lemma_expand_name_declared(comps: Seq<ComponentView>, name: Seq<char>, stack: Seq<Seq<char>>)
    requires
        stack_ok(comps, stack),
    ensures
        expand_name(comps, name, stack) matches Ok(d) ==> position_of(comps, name) >= 0 && all_declared(comps, d),
    decreases comps.len() - stack.len(), 0int, 0int,
{
    let p = position_of(comps, name);
    if p >= 0 && !stack.contains(name) {
        lemma_stack_grows(comps, stack, name);
        lemma_expand_list_declared(comps, comps[p].used_components(), stack.push(name));
    }
}

/// What following references from each of `names` lists is declared.
pub proof fn lemma_expand_list_declared(comps: Seq<ComponentView>, names: Seq<Seq<char>>, stack: Seq<Seq<char>>)
    requires
        stack_ok(comps, stack),
    ensures
        expand_list(comps, names, stack) matches Ok(d) ==> all_declared(comps, d),
    decreases comps.len() - stack.len(), 1int, names.len(),
{
    if names.len() > 0 {
        lemma_expand_name_declared(comps, names[0], stack);
        lemma_expand_list_declared(comps, names.drop_first(), stack);
        if let Ok(d) = expand_list(comps, names, stack) {
            let d0 = expand_name(comps, names[0], stack)->Ok_0;
            let rest = expand_list(comps, names.drop_first(), stack)->Ok_0;
            lemma_concat_declared(comps, seq![names[0]], d0);
            lemma_concat_declared(comps, seq![names[0]] + d0, rest);
        }
    }
}

/// Reading a route list keeps every listed component declared.
pub proof fn lemma_walk_text_declared(
    comps: Seq<ComponentView>,
    text: Seq<char>,
    path: Seq<char>,
    main: Option<Seq<Seq<char>>>,
    loaded: Seq<Seq<char>>,
    table: RouteTable,
)
    requires
        stack_ok(comps, loaded),
        table_ok(comps, table),
        main matches Some(m) ==> all_declared(comps, m),
    ensures
        walk_text(comps, text, path, main, loaded, table) matches Ok(t) ==> table_ok(comps, t),
    decreases comps.len() - loaded.len(), text.len(), 3int, 0int,
{
    if let Some(blocks) = pcre_captures(BLOCK@, text) {
        lemma_walk_blocks_declared(comps, blocks, text.len(), path, main, loaded, table);
    }
}

proof fn lemma_walk_blocks_declared(
    comps: Seq<ComponentView>,
    blocks: Seq<Seq<Option<Seq<char>>>>,
    bound: nat,
    path: Seq<char>,
    main: Option<Seq<Seq<char>>>,
    loaded: Seq<Seq<char>>,
    table: RouteTable,
)
    requires
        stack_ok(comps, loaded),
        table_ok(comps, table),
        main matches Some(m) ==> all_declared(comps, m),
    ensures
        walk_blocks(comps, blocks, bound, path, main, loaded, table) matches Ok(t) ==> table_ok(comps, t),
    decreases comps.len() - loaded.len(), bound, 2int, blocks.len(),
{
    if blocks.len() > 0 && blocks[0].len() > 1 && blocks[0][1] is Some {
        let g = blocks[0][1].unwrap();
        lemma_walk_block_declared(comps, g, bound, path, main, loaded, table);
        if let Ok(t) = walk_block(comps, g, bound, path, main, loaded, table) {
            lemma_walk_blocks_declared(comps, blocks.drop_first(), bound, path, main, loaded, t);
        }
    }
}

proof fn lemma_walk_block_declared(
    comps: Seq<ComponentView>,
    group: Seq<char>,
    bound: nat,
    path: Seq<char>,
    main: Option<Seq<Seq<char>>>,
    loaded: Seq<Seq<char>>,
    table: RouteTable,
)
    requires
        stack_ok(comps, loaded),
        table_ok(comps, table),
        main matches Some(m) ==> all_declared(comps, m),
    ensures
        walk_block(comps, group, bound, path, main, loaded, table) matches Ok(t) ==> table_ok(comps, t),
    decreases comps.len() - loaded.len(), bound, 1int, 0int,
{
    if let Some(items) = regex_set_matches(route_patterns(), group) {
        lemma_walk_items_declared(comps, group, items, bound, path, Seq::<Seq<char>>::empty(), main, loaded, table);
    }
}

proof fn lemma_walk_items_declared(
    comps: Seq<ComponentView>,
    group: Seq<char>,
    items: Seq<usize>,
    bound: nat,
    path: Seq<char>,
    previous: Seq<Seq<char>>,
    main: Option<Seq<Seq<char>>>,
    loaded: Seq<Seq<char>>,
    table: RouteTable,
)
    requires
        stack_ok(comps, loaded),
        table_ok(comps, table),
        all_declared(comps, previous),
        main matches Some(m) ==> all_declared(comps, m),
    ensures
        walk_items(comps, group, items, bound, path, previous, main, loaded, table) matches Ok(t) ==> table_ok(comps, t),
    decreases comps.len() - loaded.len(), bound, 0int, items.len(),
{
    if items.len() > 0 {
        let rest = items.drop_first();
        let item = items[0];
        if item == 0 {
            if let Some(p) = first_capture(PATH@, group) {
                let joined = path + p;
                let next = if joined.len() == 0 { seq!['/'] } else { joined };
                lemma_walk_items_declared(comps, group, rest, bound, next, previous, main, loaded, table);
            }
        } else if item == 1 {
            if let Some(c) = first_capture(COMPONENT@, group) {
                lemma_expand_name_declared(comps, c, Seq::<Seq<char>>::empty());
                if let Ok(d) = expand_name(comps, c, Seq::<Seq<char>>::empty()) {
                    let extra = match main {
                        Some(m) => m,
                        None => Seq::<Seq<char>>::empty(),
                    };
                    assert(all_declared(comps, seq![c]));
                    lemma_concat_declared(comps, seq![c], d);
                    lemma_concat_declared(comps, seq![c] + d, extra);
                    lemma_add_components_declared(comps, table, path, seq![c] + d + extra);
                    let t2 = add_components(table, path, seq![c] + d + extra);
                    lemma_walk_items_declared(comps, group, rest, bound, path, route_components(t2, path), main, loaded, t2);
                }
            }
        } else if item == 2 {
            match first_capture(LOAD@, group) {
                None => {
                    lemma_walk_items_declared(comps, group, rest, bound, path, previous, main, loaded, table);
                },
                Some(c) => {
                    let file = replace_extension_spec(c, routing_ts());
                    let p = position_of(comps, file);
                    if p >= 0 && !loaded.contains(file) {
                        if let Some(routes) = first_capture(ROUTES@, comps[p].ts_source) {
                            lemma_stack_grows(comps, loaded, file);
                            lemma_walk_text_declared(comps, routes, path, None, loaded.push(file), table);
                            if let Ok(t2) = walk_text(comps, routes, path, None, loaded.push(file), table) {
                                lemma_walk_items_declared(comps, group, rest, bound, path, previous, main, loaded, t2);
                            }
                        }
                    }
                },
            }
        } else if item == 3 {
            if let Some(children) = first_capture(CHILDREN@, group) {
                if children.len() < bound {
                    lemma_walk_text_declared(comps, children, path, Some(previous), loaded, table);
                    if let Ok(t2) = walk_text(comps, children, path, Some(previous), loaded, table) {
                        lemma_walk_items_declared(comps, group, rest, bound, path, previous, main, loaded, t2);
                    }
                }
            }
        } else {
            lemma_walk_items_declared(comps, group, rest, bound, path, previous, main, loaded, table);
        }
    }
}

/// Every component the routes of a routing module list is declared by a
/// component of the application: a name no component declares makes
/// reading the routes fail instead.
pub proof fn lemma_routes_list_declared_components(comps: Seq<ComponentView>, component: ComponentView)
    ensures
        routes_of(comps, component) matches Ok(t) ==> table_declared(comps, t),
{
    if let Some(routes) = first_capture(ROUTES@, component.ts_source) {
        let empty: RouteTable = Seq::empty();
        assert(table_ok(comps, empty));
        assert(stack_ok(comps, Seq::<Seq<char>>::empty()));
        lemma_walk_text_declared(comps, routes, Seq::<char>::empty(), None, Seq::<Seq<char>>::empty(), empty);
        if let Ok(w) = walk_text(comps, routes, Seq::<char>::empty(), None, Seq::<Seq<char>>::empty(), empty) {
            let t = dedup_table(w);
            assert forall|i: int| 0 <= i < t.len() implies all_declared(comps, #[trigger] t[i].1) by {
                lemma_dedup_same_entries(w[i].1);
                assert forall|j: int| 0 <= j < t[i].1.len() implies position_of(comps, #[trigger] t[i].1[j]) >= 0 by {
                    assert(t[i].1.contains(t[i].1[j]));
                    assert(w[i].1.contains(t[i].1[j]));
                    let k = choose|k: int| 0 <= k < w[i].1.len() && w[i].1[k] == t[i].1[j];
                    assert(all_declared(comps, w[i].1));
                }
            }
        }
    }
}

/// The routes read from a routing module have one entry per path.
pub proof fn lemma_routes_paths_distinct(comps: Seq<ComponentView>, component: ComponentView)
    ensures
        routes_of(comps, component) matches Ok(t) ==> paths_distinct(t),
{
    if let Some(routes) = first_capture(ROUTES@, component.ts_source) {
        let empty: RouteTable = Seq::empty();
        assert(table_ok(comps, empty));
        assert(stack_ok(comps, Seq::<Seq<char>>::empty()));
        lemma_walk_text_declared(comps, routes, Seq::<char>::empty(), None, Seq::<Seq<char>>::empty(), empty);
        if let Ok(w) = walk_text(comps, routes, Seq::<char>::empty(), None, Seq::<Seq<char>>::empty(), empty) {
            let t = dedup_table(w);
            assert forall|i: int, j: int| 0 <= i < j < t.len() implies t[i].0 != t[j].0 by {
                assert(t[i].0 == w[i].0);
                assert(t[j].0 == w[j].0);
            }
        }
    }
}

/// `new` keeps every entry of `old` where it stood, for the same path, with
/// its list only lengthened at the end; entries may follow.
pub open spec fn table_extends(old: RouteTable, new: RouteTable) -> bool {
    &&& old.len() <= new.len()
    &&& forall|i: int|
        #![trigger new[i]]
        0 <= i < old.len() ==> {
            &&& new[i].0 == old[i].0
            &&& old[i].1.len() <= new[i].1.len()
            &&& new[i].1.subrange(0, old[i].1.len() as int) == old[i].1
        }
}

proof fn lemma_extends_refl(t: RouteTable)
    ensures
        table_extends(t, t),
{
    assert forall|i: int| #![trigger t[i]] 0 <= i < t.len() implies t[i].1.subrange(0, t[i].1.len() as int) == t[i].1 by {
        assert(t[i].1.subrange(0, t[i].1.len() as int) =~= t[i].1);
    }
}

proof fn lemma_extends_trans(a: RouteTable, b: RouteTable, c: RouteTable)
    requires
        table_extends(a, b),
        table_extends(b, c),
    ensures
        table_extends(a, c),
{
    assert forall|i: int| #![trigger c[i]] 0 <= i < a.len() implies {
        &&& c[i].0 == a[i].0
        &&& a[i].1.len() <= c[i].1.len()
        &&& c[i].1.subrange(0, a[i].1.len() as int) == a[i].1
    } by {
        assert(b[i].0 == a[i].0);
        assert(c[i].1.subrange(0, a[i].1.len() as int) =~= c[i].1.subrange(0, b[i].1.len() as int).subrange(0, a[i].1.len() as int));
    }
}

/// Adding components to a route extends the table.
pub proof fn lemma_add_components_extends(t: RouteTable, path: Seq<char>, items: Seq<Seq<char>>)
    ensures
        table_extends(t, add_components(t, path, items)),
{
    lemma_route_position(t, path);
    let p = route_position(t, path);
    let t2 = add_components(t, path, items);
    assert forall|i: int| #![trigger t2[i]] 0 <= i < t.len() implies {
        &&& t2[i].0 == t[i].0
        &&& t[i].1.len() <= t2[i].1.len()
        &&& t2[i].1.subrange(0, t[i].1.len() as int) == t[i].1
    } by {
        if i == p {
            assert(t2[i].1.subrange(0, t[i].1.len() as int) =~= t[i].1);
        } else {
            assert(t2[i] == t[i]);
            assert(t[i].1.subrange(0, t[i].1.len() as int) =~= t[i].1);
        }
    }
}

/// Reading a route list removes no path and only lengthens the lists of
/// the paths already there, at their ends.
pub proof fn lemma_walk_text_extends(
    comps: Seq<ComponentView>,
    text: Seq<char>,
    path: Seq<char>,
    main: Option<Seq<Seq<char>>>,
    loaded: Seq<Seq<char>>,
    table: RouteTable,
)
    requires
        stack_ok(comps, loaded),
    ensures
        walk_text(comps, text, path, main, loaded, table) matches Ok(t) ==> table_extends(table, t),
    decreases comps.len() - loaded.len(), text.len(), 3int, 0int,
{
    if let Some(blocks) = pcre_captures(BLOCK@, text) {
        lemma_walk_blocks_extends(comps, blocks, text.len(), path, main, loaded, table);
    }
}

proof fn lemma_walk_blocks_extends(
    comps: Seq<ComponentView>,
    blocks: Seq<Seq<Option<Seq<char>>>>,
    bound: nat,
    path: Seq<char>,
    main: Option<Seq<Seq<char>>>,
    loaded: Seq<Seq<char>>,
    table: RouteTable,
)
    requires
        stack_ok(comps, loaded),
    ensures
        walk_blocks(comps, blocks, bound, path, main, loaded, table) matches Ok(t) ==> table_extends(table, t),
    decreases comps.len() - loaded.len(), bound, 2int, blocks.len(),
{
    if blocks.len() == 0 {
        lemma_extends_refl(table);
    } else if blocks[0].len() > 1 && blocks[0][1] is Some {
        let g = blocks[0][1].unwrap();
        lemma_walk_block_extends(comps, g, bound, path, main, loaded, table);
        if let Ok(t) = walk_block(comps, g, bound, path, main, loaded, table) {
            lemma_walk_blocks_extends(comps, blocks.drop_first(), bound, path, main, loaded, t);
            if let Ok(t2) = walk_blocks(comps, blocks.drop_first(), bound, path, main, loaded, t) {
                lemma_extends_trans(table, t, t2);
            }
        }
    }
}

proof fn lemma_walk_block_extends(
    comps: Seq<ComponentView>,
    group: Seq<char>,
    bound: nat,
    path: Seq<char>,
    main: Option<Seq<Seq<char>>>,
    loaded: Seq<Seq<char>>,
    table: RouteTable,
)
    requires
        stack_ok(comps, loaded),
    ensures
        walk_block(comps, group, bound, path, main, loaded, table) matches Ok(t) ==> table_extends(table, t),
    decreases comps.len() - loaded.len(), bound, 1int, 0int,
{
    if let Some(items) = regex_set_matches(route_patterns(), group) {
        lemma_walk_items_extends(comps, group, items, bound, path, Seq::<Seq<char>>::empty(), main, loaded, table);
    }
}

proof fn lemma_walk_items_extends(
    comps: Seq<ComponentView>,
    group: Seq<char>,
    items: Seq<usize>,
    bound: nat,
    path: Seq<char>,
    previous: Seq<Seq<char>>,
    main: Option<Seq<Seq<char>>>,
    loaded: Seq<Seq<char>>,
    table: RouteTable,
)
    requires
        stack_ok(comps, loaded),
    ensures
        walk_items(comps, group, items, bound, path, previous, main, loaded, table) matches Ok(t) ==> table_extends(table, t),
    decreases comps.len() - loaded.len(), bound, 0int, items.len(),
{
    if items.len() == 0 {
        lemma_extends_refl(table);
    } else {
        let rest = items.drop_first();
        let item = items[0];
        if item == 0 {
            if let Some(p) = first_capture(PATH@, group) {
                let joined = path + p;
                let next = if joined.len() == 0 { seq!['/'] } else { joined };
                lemma_walk_items_extends(comps, group, rest, bound, next, previous, main, loaded, table);
            }
        } else if item == 1 {
            if let Some(c) = first_capture(COMPONENT@, group) {
                if let Ok(d) = expand_name(comps, c, Seq::<Seq<char>>::empty()) {
                    let extra = match main {
                        Some(m) => m,
                        None => Seq::<Seq<char>>::empty(),
                    };
                    let t2 = add_components(table, path, seq![c] + d + extra);
                    lemma_add_components_extends(table, path, seq![c] + d + extra);
                    lemma_walk_items_extends(comps, group, rest, bound, path, route_components(t2, path), main, loaded, t2);
                    if let Ok(t3) = walk_items(comps, group, rest, bound, path, route_components(t2, path), main, loaded, t2) {
                        lemma_extends_trans(table, t2, t3);
                    }
                }
            }
        } else if item == 2 {
            match first_capture(LOAD@, group) {
                None => {
                    lemma_walk_items_extends(comps, group, rest, bound, path, previous, main, loaded, table);
                },
                Some(c) => {
                    let file = replace_extension_spec(c, routing_ts());
                    let p = position_of(comps, file);
                    if p >= 0 && !loaded.contains(file) {
                        if let Some(routes) = first_capture(ROUTES@, comps[p].ts_source) {
                            lemma_stack_grows(comps, loaded, file);
                            lemma_walk_text_extends(comps, routes, path, None, loaded.push(file), table);
                            if let Ok(t2) = walk_text(comps, routes, path, None, loaded.push(file), table) {
                                lemma_walk_items_extends(comps, group, rest, bound, path, previous, main, loaded, t2);
                                if let Ok(t3) = walk_items(comps, group, rest, bound, path, previous, main, loaded, t2) {
                                    lemma_extends_trans(table, t2, t3);
                                }
                            }
                        }
                    }
                },
            }
        } else if item == 3 {
            if let Some(children) = first_capture(CHILDREN@, group) {
                if children.len() < bound {
                    lemma_walk_text_extends(comps, children, path, Some(previous), loaded, table);
                    if let Ok(t2) = walk_text(comps, children, path, Some(previous), loaded, table) {
                        lemma_walk_items_extends(comps, group, rest, bound, path, previous, main, loaded, t2);
                        if let Ok(t3) = walk_items(comps, group, rest, bound, path, previous, main, loaded, t2) {
                            lemma_extends_trans(table, t2, t3);
                        }
                    }
                }
            }
        } else {
            lemma_walk_items_extends(comps, group, rest, bound, path, previous, main, loaded, table);
        }
    }
}

/// After adding components to a path, the path lists what it listed before
/// followed by them.
pub proof fn lemma_add_then_components(t: RouteTable, path: Seq<char>, items: Seq<Seq<char>>)
    ensures
        route_components(add_components(t, path, items), path) == route_components(t, path) + items,
{
    lemma_route_position(t, path);
    let t2 = add_components(t, path, items);
    lemma_route_position(t2, path);
    let p = route_position(t, path);
    let p2 = route_position(t2, path);
    if p >= 0 {
        assert(t2[p].0 == path);
        if p2 > p {
            assert(t2[p2] == t[p2]);
        }
        assert(p2 == p);
    } else {
        assert(t2[t.len() as int].0 == path);
        if 0 <= p2 < t.len() {
            assert(t2[p2] == t[p2]);
        }
        assert(p2 == t.len());
        assert(Seq::<Seq<char>>::empty() + items =~= items);
    }
}

/// A route block holding a path and a component files the component, with
/// what it reaches, under the parent path extended by the block's path
/// (an empty child path keeps the parent's entry); only when both paths
/// are empty is it filed under `/`.
pub proof fn lemma_block_path_and_component(
    comps: Seq<ComponentView>,
    group: Seq<char>,
    bound: nat,
    parent: Seq<char>,
    loaded: Seq<Seq<char>>,
    table: RouteTable,
)
    requires
        stack_ok(comps, loaded),
        regex_set_matches(route_patterns(), group) == Some(seq![0usize, 1usize]),
        first_capture(PATH@, group) is Some,
        first_capture(COMPONENT@, group) is Some,
        expand_name(comps, first_capture(COMPONENT@, group)->Some_0, Seq::<Seq<char>>::empty()) is Ok,
    ensures
        ({
            let p = first_capture(PATH@, group)->Some_0;
            let c = first_capture(COMPONENT@, group)->Some_0;
            let d = expand_name(comps, c, Seq::<Seq<char>>::empty())->Ok_0;
            let r = walk_block(comps, group, bound, parent, None, loaded, table);
            &&& r is Ok
            &&& (parent + p).len() > 0 ==> route_components(r->Ok_0, parent + p) == route_components(table, parent + p) + (seq![c] + d)
            &&& (parent + p).len() == 0 ==> route_components(r->Ok_0, seq!['/']) == route_components(table, seq!['/']) + (seq![c] + d)
        }),
{
    let p = first_capture(PATH@, group)->Some_0;
    let c = first_capture(COMPONENT@, group)->Some_0;
    let d = expand_name(comps, c, Seq::<Seq<char>>::empty())->Ok_0;
    let items = seq![0usize, 1usize];
    let joined = parent + p;
    let key = if joined.len() == 0 { seq!['/'] } else { joined };
    let empty = Seq::<Seq<char>>::empty();
    assert(items[0] == 0usize);
    assert(items.drop_first() =~= seq![1usize]);
    assert(seq![1usize][0] == 1usize);
    assert(seq![1usize].drop_first() =~= Seq::<usize>::empty());
    assert(seq![c] + d + empty =~= seq![c] + d);
    let t2 = add_components(table, key, seq![c] + d);
    assert(walk_items(comps, group, Seq::<usize>::empty(), bound, key, route_components(t2, key), None, loaded, t2) == Ok::<RouteTable, RouteFault>(t2));
    assert(walk_items(comps, group, seq![1usize], bound, key, empty, None, loaded, table) == Ok::<RouteTable, RouteFault>(t2));
    assert(walk_items(comps, group, items, bound, parent, empty, None, loaded, table) == Ok::<RouteTable, RouteFault>(t2));
    lemma_add_then_components(table, key, seq![c] + d);
}

/// The components a component uses.
pub open spec fn uses(comps: Seq<ComponentView>, name: Seq<char>) -> Seq<Seq<char>> {
    comps[position_of(comps, name)].used_components()
}

/// Every listed name is declared, and every component it uses is listed
/// too.
pub open spec fn closed_under_use(comps: Seq<ComponentView>, d: Seq<Seq<char>>) -> bool {
    forall|i: int|
        0 <= i < d.len() ==> position_of(comps, #[trigger] d[i]) >= 0 && forall|j: int|
            0 <= j < uses(comps, d[i]).len() ==> d.contains(#[trigger] uses(comps, d[i])[j])
}

proof fn lemma_closed_concat(comps: Seq<ComponentView>, a: Seq<Seq<char>>, b: Seq<Seq<char>>, whole: Seq<Seq<char>>)
    requires
        forall|i: int| 0 <= i < a.len() ==> position_of(comps, #[trigger] a[i]) >= 0 && forall|j: int|
            0 <= j < uses(comps, a[i]).len() ==> b.contains(#[trigger] uses(comps, a[i])[j]),
        forall|x: Seq<char>| b.contains(x) ==> whole.contains(x),
    ensures
        forall|i: int| 0 <= i < a.len() ==> position_of(comps, #[trigger] a[i]) >= 0 && forall|j: int|
            0 <= j < uses(comps, a[i]).len() ==> whole.contains(#[trigger] uses(comps, a[i])[j]),
{
}

proof fn lemma_contains_concat(a: Seq<Seq<char>>, b: Seq<Seq<char>>)
    ensures
        forall|x: Seq<char>| a.contains(x) ==> (a + b).contains(x),
        forall|x: Seq<char>| b.contains(x) ==> (a + b).contains(x),
{
    assert forall|x: Seq<char>| a.contains(x) implies (a + b).contains(x) by {
        let i = choose|i: int| 0 <= i < a.len() && a[i] == x;
        assert((a + b)[i] == x);
    }
    assert forall|x: Seq<char>| b.contains(x) implies (a + b).contains(x) by {
        let i = choose|i: int| 0 <= i < b.len() && b[i] == x;
        assert((a + b)[a.len() + i] == x);
    }
}

/// Following references from a component lists everything it uses, and
/// the list is closed: every listed component's own uses are listed too,
/// however deep.
pub proof fn lemma_expand_name_closed(comps: Seq<ComponentView>, name: Seq<char>, stack: Seq<Seq<char>>)
    requires
        stack_ok(comps, stack),
    ensures
        expand_name(comps, name, stack) matches Ok(d) ==> {
            &&& position_of(comps, name) >= 0
            &&& forall|j: int| 0 <= j < uses(comps, name).len() ==> d.contains(#[trigger] uses(comps, name)[j])
            &&& closed_under_use(comps, d)
        },
    decreases comps.len() - stack.len(), 0int, 0int,
{
    let p = position_of(comps, name);
    if p >= 0 && !stack.contains(name) {
        lemma_stack_grows(comps, stack, name);
        lemma_expand_list_closed(comps, comps[p].used_components(), stack.push(name));
    }
}

/// Following references from each of `names` lists each of them and is
/// closed under use.
pub proof fn lemma_expand_list_closed(comps: Seq<ComponentView>, names: Seq<Seq<char>>, stack: Seq<Seq<char>>)
    requires
        stack_ok(comps, stack),
    ensures
        expand_list(comps, names, stack) matches Ok(d) ==> {
            &&& forall|j: int| 0 <= j < names.len() ==> d.contains(#[trigger] names[j])
            &&& closed_under_use(comps, d)
        },
    decreases comps.len() - stack.len(), 1int, names.len(),
{
    if names.len() == 0 {
    } else {
        lemma_expand_name_closed(comps, names[0], stack);
        lemma_expand_list_closed(comps, names.drop_first(), stack);
        if let Ok(d) = expand_list(comps, names, stack) {
            let d0 = expand_name(comps, names[0], stack)->Ok_0;
            let rest = expand_list(comps, names.drop_first(), stack)->Ok_0;
            let head = seq![names[0]] + d0;
            assert(d == head + rest);
            lemma_contains_concat(seq![names[0]], d0);
            lemma_contains_concat(head, rest);
            assert forall|j: int| 0 <= j < names.len() implies d.contains(#[trigger] names[j]) by {
                if j == 0 {
                    assert(d[0] == names[0]);
                } else {
                    assert(names.drop_first()[j - 1] == names[j]);
                    assert(rest.contains(names.drop_first()[j - 1]));
                    assert(rest.contains(names[j]));
                }
            }
            assert forall|i: int| 0 <= i < d.len() implies position_of(comps, #[trigger] d[i]) >= 0 && forall|j: int|
                0 <= j < uses(comps, d[i]).len() ==> d.contains(#[trigger] uses(comps, d[i])[j]) by {
                if i == 0 {
                    assert(d[i] == names[0]);
                } else if i < head.len() {
                    assert(d[i] == d0[i - 1]);
                } else {
                    assert(d[i] == rest[i - head.len()]);
                }
            }
        }
    }
}

} // verus!
