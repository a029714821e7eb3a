//! Angular source files: what kind each is, the name it declares, the
//! translation keys it uses and the components it refers to.
use vstd::prelude::*;
use crate::patterns::{regex_captures, regex_captures_of, COMPONENTS, C_NAME, ENTRY, HTML, TS};
use crate::strings::{
    chars_of, lemma_trim_after_strip_newlines, split_on, split_on_char, strip_leading_char, trim_text, trimmed,
};
use crate::structure::utilities::{
    capture_first, component_name_of, first_capture, replace_extension, replace_extension_spec,
    selector_to_component_name,
};

verus! {

broadcast use vstd::string::group_string_axioms;

/// What an Angular source file declares, told by the second `.`-separated
/// part of its file name (`user.component.ts` is a component).
#[derive(Clone, Copy, Debug, PartialEq, Eq, Structural)]
pub enum ComponentType {
    Service,
    Component,
    Directive,
    Module,
    Route,
    Ignore,
}

/// One TypeScript source file of the project together with its sources.
///
/// `ts_source` holds the text of the file at `path`; `html_source` holds the
/// text of the template at `html` when there is one, and is empty otherwise.
pub struct AngularComponent {
    pub name: String,
    pub kind: ComponentType,
    pub translations: Vec<String>,
    pub file_name: String,
    pub path: String,
    pub html: Option<String>,
    pub ts_source: String,
    pub html_source: String,
}

/// The mathematical value of an `AngularComponent`.
pub ghost struct ComponentView {
    pub name: Seq<char>,
    pub kind: ComponentType,
    pub translations: Seq<Seq<char>>,
    pub file_name: Seq<char>,
    pub path: Seq<char>,
    pub html: Option<Seq<char>>,
    pub ts_source: Seq<char>,
    pub html_source: Seq<char>,
}

impl View for AngularComponent {
    type V = ComponentView;

    open spec fn view(&self) -> ComponentView {
        ComponentView {
            name: self.name@,
            kind: self.kind,
            translations: self.translations.deep_view(),
            file_name: self.file_name@,
            path: self.path@,
            html: self.html.deep_view(),
            ts_source: self.ts_source@,
            html_source: self.html_source@,
        }
    }
}

impl Clone for AngularComponent {
    fn clone(&self) -> (r: Self)
        ensures
            r@ == self@,
    {
        let html = match &self.html {
            Some(h) => Some(h.clone()),
            None => None,
        };
        AngularComponent {
            name: self.name.clone(),
            kind: self.kind,
            translations: crate::strings::clone_strings(&self.translations),
            file_name: self.file_name.clone(),
            path: self.path.clone(),
            html,
            ts_source: self.ts_source.clone(),
            html_source: self.html_source.clone(),
        }
    }
}

// ---------------------------------------------------------------------------
// Mathematical model
// ---------------------------------------------------------------------------

/// Group `g` of every match in `caps` in which that group took part. (The
/// patterns read with it always fill their group 1, so no match is passed
/// over in practice.)
pub open spec fn groups_at(caps: Seq<Seq<Option<Seq<char>>>>, g: int) -> Seq<Seq<char>>
    decreases caps.len(),
{
    if caps.len() == 0 {
        Seq::<Seq<char>>::empty()
    } else {
        let rest = groups_at(caps.drop_last(), g);
        let m = caps.last();
        if 0 <= g < m.len() && m[g] is Some {
            rest.push(m[g].unwrap())
        } else {
            rest
        }
    }
}

/// Group 1 of every match of `pattern` in `text`; nothing when the engine
/// refuses the pattern (the patterns of this crate are all accepted).
pub open spec fn all_groups(pattern: Seq<char>, text: Seq<char>) -> Seq<Seq<char>> {
    match regex_captures(pattern, text) {
        Some(caps) => groups_at(caps, 1),
        None => Seq::<Seq<char>>::empty(),
    }
}

pub open spec fn word_component() -> Seq<char> { seq!['c', 'o', 'm', 'p', 'o', 'n', 'e', 'n', 't'] }
pub open spec fn word_service() -> Seq<char> { seq!['s', 'e', 'r', 'v', 'i', 'c', 'e'] }
pub open spec fn word_directive() -> Seq<char> { seq!['d', 'i', 'r', 'e', 'c', 't', 'i', 'v', 'e'] }
pub open spec fn word_module() -> Seq<char> { seq!['m', 'o', 'd', 'u', 'l', 'e'] }
pub open spec fn word_routing() -> Seq<char> { seq!['r', 'o', 'u', 't', 'i', 'n', 'g'] }

/// The kind of a source file, told by the second `.`-separated part of its
/// name; a name with fewer than two parts, or another second part, is
/// ignored.
pub open spec fn kind_of_file(file_name: Seq<char>) -> ComponentType {
    let parts = split_on(file_name, '.');
    if parts.len() < 2 {
        ComponentType::Ignore
    } else if parts[1] == word_component() {
        ComponentType::Component
    } else if parts[1] == word_service() {
        ComponentType::Service
    } else if parts[1] == word_directive() {
        ComponentType::Directive
    } else if parts[1] == word_module() {
        ComponentType::Module
    } else if parts[1] == word_routing() {
        ComponentType::Route
    } else {
        ComponentType::Ignore
    }
}

/// The name a source declares: the class name of the first declaration
/// found; the file name when that declaration is a routes constant; empty
/// when the source declares neither.
pub open spec fn declared_name(ts: Seq<char>, file_name: Seq<char>) -> Seq<char> {
    match regex_captures(C_NAME@, ts) {
        Some(caps) => if caps.len() == 0 {
            Seq::<char>::empty()
        } else if caps[0].len() > 1 && caps[0][1] is Some {
            caps[0][1].unwrap()
        } else {
            file_name
        },
        None => Seq::<char>::empty(),
    }
}

/// The translation keys a source uses: those of its TypeScript code, then,
/// when it has a template, those of the template.
pub open spec fn translations_of(ts: Seq<char>, html: Option<Seq<char>>, html_source: Seq<char>) -> Seq<Seq<char>> {
    let from_ts = all_groups(TS@, ts);
    if html is Some {
        from_ts + all_groups(HTML@, html_source)
    } else {
        from_ts
    }
}

/// One entry of an `entryComponents` list without the white space round it
/// (line breaks included).
pub open spec fn entry_name(piece: Seq<char>) -> Seq<char> {
    trimmed(piece)
}

/// The class names of a list of selectors.
pub open spec fn class_names(selectors: Seq<Seq<char>>) -> Seq<Seq<char>> {
    selectors.map_values(|s: Seq<char>| component_name_of(s))
}

/// The entries of an `entryComponents` list split at its commas.
pub open spec fn entry_names(pieces: Seq<Seq<char>>) -> Seq<Seq<char>> {
    pieces.map_values(|p: Seq<char>| entry_name(p))
}

/// The components a source refers to: the class names of the `app-...`
/// selectors of its template, then the entries of its `entryComponents`
/// list.
pub open spec fn used_components_of(template: Seq<char>, ts: Seq<char>) -> Seq<Seq<char>> {
    let from_template = class_names(all_groups(COMPONENTS@, template));
    match first_capture(ENTRY@, ts) {
        Some(list) => from_template + entry_names(split_on(list, ',')),
        None => from_template,
    }
}

impl ComponentView {
    /// The text of the template, empty when there is none.
    pub open spec fn template(self) -> Seq<char> {
        if self.html is Some {
            self.html_source
        } else {
            Seq::<char>::empty()
        }
    }

    /// The components this source refers to.
    pub open spec fn used_components(self) -> Seq<Seq<char>> {
        used_components_of(self.template(), self.ts_source)
    }
}

// ---------------------------------------------------------------------------
// Executable code
// ---------------------------------------------------------------------------

/// Group 1 of every match of `pattern` in `text`, in order.
pub fn all_captures(pattern: &str, text: &str) -> (r: Vec<String>)
    ensures
        r.deep_view() == all_groups(pattern@, text@),
{
    let mut r: Vec<String> = Vec::new();
    match regex_captures_of(pattern, text) {
        None => r,
        Some(caps) => {
            let ghost cv = caps.deep_view();
            let mut i: usize = 0;
            while i < caps.len()
                invariant
                    i <= caps.len(),
                    cv == caps.deep_view(),
                    r.deep_view() == groups_at(cv.take(i as int), 1),
                decreases caps.len() - i,
            {
                assert(cv.take(i + 1).drop_last() =~= cv.take(i as int));
                assert(cv.take(i + 1).last() == cv[i as int]);
                if caps[i].len() > 1 {
                    match &caps[i][1] {
                        Some(g) => {
                            r.push(g.clone());
                        },
                        None => {},
                    }
                }
                i = i + 1;
            }
            assert(cv.take(caps.len() as int) =~= cv);
            r
        },
    }
}

/// Whether two texts are equal.
pub fn same_text(a: &str, b: &str) -> (r: bool)
    ensures
        r == (a@ == b@),
{
    let x = chars_of(a);
    let y = chars_of(b);
    if x.len() != y.len() {
        return false;
    }
    let mut i: usize = 0;
    while i < x.len()
        invariant
            i <= x.len() == y.len(),
            x@ == a@,
            y@ == b@,
            forall|k: int| 0 <= k < i ==> x@[k] == y@[k],
        decreases x.len() - i,
    {
        if x[i] != y[i] {
            return false;
        }
        i = i + 1;
    }
    assert(x@ =~= y@);
    true
}

impl AngularComponent {
    /// Builds the component of a source file from its name, its path, the
    /// path of its template (if any) and the texts of both.
    pub fn new(file_name: String, path: String, html: Option<String>, ts_source: String, html_source: String) -> (c: AngularComponent)
        ensures
            c@.file_name == file_name@,
            c@.path == path@,
            c@.html == html.deep_view(),
            c@.ts_source == ts_source@,
            c@.html_source == html_source@,
            c@.name == declared_name(ts_source@, file_name@),
            c@.kind == kind_of_file(file_name@),
            c@.translations == translations_of(ts_source@, html.deep_view(), html_source@),
    {
        let mut component = AngularComponent {
            name: String::new(),
            kind: ComponentType::Ignore,
            translations: Vec::new(),
            file_name,
            path,
            html,
            ts_source,
            html_source,
        };
        component.name = component.register_name();
        component.kind = component.retrieve_kind();
        component.translations = component.get_translations();
        component
    }

    /// The path of the template that belongs to a source file: its path with
    /// the extension replaced by `html`.
    pub fn find_sibling(path: &String) -> (r: String)
        ensures
            r@ == replace_extension_spec(path@, seq!['h', 't', 'm', 'l']),
    {
        proof {
            reveal_strlit("html");
            assert("html".view() =~= seq!['h', 't', 'm', 'l']);
        }
        replace_extension(path, "html")
    }

    /// The TypeScript text of the component.
    pub fn open_ts(&self) -> (r: String)
        ensures
            r@ == self@.ts_source,
    {
        self.ts_source.clone()
    }

    /// The text of the template, or an empty text when there is none.
    pub fn open_html(&self) -> (r: String)
        ensures
            r@ == self@.template(),
    {
        let mut contents = String::new();
        if self.html.is_some() {
            contents = self.html_source.clone();
        }
        contents
    }

    /// The components this one refers to: class names of the `app-...`
    /// selectors in its template, then the entries of its `entryComponents`.
    pub fn get_used_components(&self) -> (r: Vec<String>)
        ensures
            r.deep_view() == self@.used_components(),
    {
        let html = self.open_html();
        let ts = self.open_ts();
        let selectors = all_captures(COMPONENTS, html.as_str());
        let mut components: Vec<String> = Vec::new();
        let ghost sv = selectors.deep_view();
        let mut i: usize = 0;
        while i < selectors.len()
            invariant
                i <= selectors.len(),
                sv == selectors.deep_view(),
                components.deep_view() == class_names(sv.take(i as int)),
            decreases selectors.len() - i,
        {
            let name = selector_to_component_name(selectors[i].as_str());
            assert(selectors[i as int]@ == sv[i as int]);
            assert(name@ == component_name_of(sv[i as int]));
            assert(components.deep_view().len() == i);
            let ghost old = components.deep_view();
            components.push(name);
            assert(components.deep_view() =~= old.push(component_name_of(sv[i as int])));
            assert(sv.take(i + 1) =~= sv.take(i as int).push(sv[i as int]));
            assert(class_names(sv.take(i + 1)) =~= class_names(sv.take(i as int)).push(component_name_of(sv[i as int])));
            i = i + 1;
        }
        assert(sv.take(selectors.len() as int) =~= sv);
        if let Some(s) = capture_first(ENTRY, ts.as_str()) {
            let pieces = split_on_char(s.as_str(), ',');
            let ghost pv = pieces.deep_view();
            let ghost base = components.deep_view();
            let mut j: usize = 0;
            while j < pieces.len()
                invariant
                    j <= pieces.len(),
                    pv == pieces.deep_view(),
                    components.deep_view() == base + entry_names(pv.take(j as int)),
                decreases pieces.len() - j,
            {
                let stripped = strip_leading_char(pieces[j].as_str(), '\n');
                let entry = trim_text(stripped.as_str());
                proof {
                    lemma_trim_after_strip_newlines(pv[j as int]);
                }
                assert(pieces[j as int]@ == pv[j as int]);
                assert(entry@ == entry_name(pv[j as int]));
                assert(components.deep_view().len() == base.len() + j);
                let ghost old = components.deep_view();
                components.push(entry);
                assert(components.deep_view() =~= old.push(entry_name(pv[j as int])));
                assert(pv.take(j + 1) =~= pv.take(j as int).push(pv[j as int]));
                assert(entry_names(pv.take(j + 1)) =~= entry_names(pv.take(j as int)).push(entry_name(pv[j as int])));
                assert(components.deep_view() =~= base + entry_names(pv.take(j + 1)));
                j = j + 1;
            }
            assert(pv.take(pieces.len() as int) =~= pv);
        }
        components
    }

    /// The name the source declares (see `declared_name`).
    pub fn register_name(&self) -> (r: String)
        ensures
            r@ == declared_name(self@.ts_source, self@.file_name),
    {
        let contents = self.open_ts();
        match regex_captures_of(C_NAME, contents.as_str()) {
            None => String::new(),
            Some(caps) => {
                if caps.len() == 0 {
                    String::new()
                } else if caps[0].len() > 1 && caps[0][1].is_some() {
                    match &caps[0][1] {
                        Some(g) => g.clone(),
                        None => String::new(),
                    }
                } else {
                    self.file_name.clone()
                }
            },
        }
    }

    /// The translation keys of the TypeScript code, then of the template.
    pub fn get_translations(&self) -> (r: Vec<String>)
        ensures
            r.deep_view() == translations_of(self@.ts_source, self@.html, self@.html_source),
    {
        let contents = self.open_ts();
        let mut matches = all_captures(TS, contents.as_str());
        if self.html.is_some() {
            let html = self.open_html();
            let mut more = all_captures(HTML, html.as_str());
            let ghost a = matches.deep_view();
            let ghost b = more.deep_view();
            matches.append(&mut more);
            assert(matches.deep_view() =~= a + b);
        }
        matches
    }

    /// The kind of the source, told by its file name.
    pub fn retrieve_kind(&self) -> (r: ComponentType)
        ensures
            r == kind_of_file(self@.file_name),
    {
        let parts = split_on_char(self.file_name.as_str(), '.');
        if parts.len() < 2 {
            return ComponentType::Ignore;
        }
        proof {
            reveal_strlit("component");
            reveal_strlit("service");
            reveal_strlit("directive");
            reveal_strlit("module");
            reveal_strlit("routing");
            assert("component".view() =~= word_component());
            assert("service".view() =~= word_service());
            assert("directive".view() =~= word_directive());
            assert("module".view() =~= word_module());
            assert("routing".view() =~= word_routing());
        }
        let second = parts[1].as_str();
        if same_text(second, "component") {
            ComponentType::Component
        } else if same_text(second, "service") {
            ComponentType::Service
        } else if same_text(second, "directive") {
            ComponentType::Directive
        } else if same_text(second, "module") {
            ComponentType::Module
        } else if same_text(second, "routing") {
            ComponentType::Route
        } else {
            ComponentType::Ignore
        }
    }
}


// ---------------------------------------------------------------------------
// The components of a project, found by name
// ---------------------------------------------------------------------------

/// The components of a project, each found by the name it declares. A
/// component added under a name that is already taken replaces the earlier
/// one.
pub struct AngularComponents {
    pub value: Vec<AngularComponent>,
}

/// The views of a list of components.
pub open spec fn views_of(v: Seq<AngularComponent>) -> Seq<ComponentView> {
    Seq::new(v.len(), |i: int| v[i]@)
}

/// The index of the last component named `name`, or -1.
pub open spec fn position_of(entries: Seq<ComponentView>, name: Seq<char>) -> int
    decreases entries.len(),
{
    if entries.len() == 0 {
        -1
    } else if entries.last().name == name {
        entries.len() - 1
    } else {
        position_of(entries.drop_last(), name)
    }
}

/// The component named `name`, if there is one.
pub open spec fn lookup(entries: Seq<ComponentView>, name: Seq<char>) -> Option<ComponentView> {
    let p = position_of(entries, name);
    if p >= 0 {
        Some(entries[p])
    } else {
        None
    }
}

/// `entries` with `c` added: it takes the place of the component of the same
/// name, or comes last when there is none.
pub open spec fn inserted(entries: Seq<ComponentView>, c: ComponentView) -> Seq<ComponentView> {
    let p = position_of(entries, c.name);
    if p >= 0 {
        entries.update(p, c)
    } else {
        entries.push(c)
    }
}

/// `entries` with each of `cs` added in turn.
pub open spec fn inserted_all(entries: Seq<ComponentView>, cs: Seq<ComponentView>) -> Seq<ComponentView>
    decreases cs.len(),
{
    if cs.len() == 0 {
        entries
    } else {
        inserted(inserted_all(entries, cs.drop_last()), cs.last())
    }
}

/// No two components share a name.
pub open spec fn names_distinct(entries: Seq<ComponentView>) -> bool {
    forall|i: int, j: int| 0 <= i < j < entries.len() ==> entries[i].name != entries[j].name
}

/// The names of the components.
pub open spec fn names_of(entries: Seq<ComponentView>) -> Seq<Seq<char>> {
    entries.map_values(|c: ComponentView| c.name)
}

/// A found position holds a component of that name; no position means no
/// component has that name.
pub proof fn lemma_position_of(entries: Seq<ComponentView>, name: Seq<char>)
    ensures
        -1 <= position_of(entries, name) < entries.len(),
        position_of(entries, name) >= 0 ==> entries[position_of(entries, name)].name == name,
        position_of(entries, name) < 0 ==> forall|i: int| 0 <= i < entries.len() ==> entries[i].name != name,
        position_of(entries, name) >= 0 ==> forall|i: int|
            position_of(entries, name) < i < entries.len() ==> entries[i].name != name,
    decreases entries.len(),
{
    if entries.len() > 0 {
        let d = entries.drop_last();
        lemma_position_of(d, name);
        assert(forall|i: int| 0 <= i < d.len() ==> d[i] == entries[i]);
    }
}

impl View for AngularComponents {
    type V = Seq<ComponentView>;

    open spec fn view(&self) -> Seq<ComponentView> {
        views_of(self.value@)
    }
}

impl AngularComponents {
    /// The components of `components`, added in turn.
    pub fn new(components: Vec<AngularComponent>) -> (r: AngularComponents)
        ensures
            r@ == inserted_all(Seq::empty(), views_of(components@)),
            names_distinct(r@),
    {
        proof {
            lemma_inserted_all_names_distinct(views_of(components@));
        }
        let mut r = AngularComponents { value: Vec::new() };
        let ghost all = views_of(components@);
        let mut rest = components;
        let mut taken: Vec<AngularComponent> = Vec::new();
        assert(r@ =~= inserted_all(Seq::empty(), views_of(components@).take(0)));
        let mut i: usize = 0;
        let n = rest.len();
        while i < n
            invariant
                i <= n == all.len(),
                views_of(rest@) == all,
                r@ == inserted_all(Seq::empty(), all.take(i as int)),
            decreases n - i,
        {
            let c = rest[i].clone();
            assert(all.take(i + 1).drop_last() =~= all.take(i as int));
            assert(all.take(i + 1).last() == c@);
            r.insert(c);
            i = i + 1;
        }
        assert(all.take(n as int) =~= all);
        r
    }

    /// Where the component named `name` stands, if anywhere.
    pub fn position(&self, name: &str) -> (r: Option<usize>)
        ensures
            r matches Some(i) ==> i == position_of(self@, name@) && i < self.value.len(),
            r is None ==> position_of(self@, name@) == -1,
    {
        let mut i = self.value.len();
        assert(self@.take(i as int) =~= self@);
        while i > 0
            invariant
                i <= self.value.len(),
                position_of(self@, name@) == position_of(self@.take(i as int), name@),
            decreases i,
        {
            assert(self@.take(i as int).drop_last() =~= self@.take(i - 1));
            if same_text(self.value[i - 1].name.as_str(), name) {
                return Some(i - 1);
            }
            i = i - 1;
        }
        None
    }

    /// The component named `name`, if there is one.
    pub fn get(&self, name: &str) -> (r: Option<&AngularComponent>)
        ensures
            r matches Some(c) ==> lookup(self@, name@) == Some(c@),
            r is None ==> lookup(self@, name@) is None,
    {
        match self.position(name) {
            Some(i) => Some(&self.value[i]),
            None => None,
        }
    }

    /// Adds `component` under its name, replacing a component of that name.
    pub fn insert(&mut self, component: AngularComponent)
        ensures
            final(self)@ == inserted(old(self)@, component@),
            names_distinct(old(self)@) ==> names_distinct(final(self)@),
    {
        proof {
            if names_distinct(self@) {
                lemma_insert_keeps_names_distinct(self@, component@);
            }
        }
        let ghost c = component@;
        match self.position(component.name.as_str()) {
            Some(i) => {
                self.value.set(i, component);
                assert(self@ =~= old(self)@.update(i as int, c));
            },
            None => {
                self.value.push(component);
                assert(self@ =~= old(self)@.push(c));
            },
        }
    }

    /// The number of components.
    pub fn len(&self) -> (r: usize)
        ensures
            r == self@.len(),
    {
        self.value.len()
    }
}

// ---------------------------------------------------------------------------
// Laws of the collection
// ---------------------------------------------------------------------------

/// After adding a component, looking up its name gives it back, and every
/// other name finds what it found before.
pub proof fn lemma_lookup_after_insert(entries: Seq<ComponentView>, c: ComponentView, name: Seq<char>)
    ensures
        lookup(inserted(entries, c), c.name) == Some(c),
        name != c.name ==> lookup(inserted(entries, c), name) == lookup(entries, name),
{
    let p = position_of(entries, c.name);
    lemma_position_of(entries, c.name);
    lemma_position_of(entries, name);
    let e2 = inserted(entries, c);
    lemma_position_of(e2, c.name);
    lemma_position_of(e2, name);
    if p >= 0 {
        assert(e2[p].name == c.name);
    } else {
        assert(e2.last() == c);
        assert(e2.drop_last() =~= entries);
    }
    if name != c.name {
        let q = position_of(entries, name);
        let q2 = position_of(e2, name);
        if q >= 0 {
            assert(e2[q].name == name);
        }
        if q2 >= 0 {
            assert(q2 < entries.len());
            assert(entries[q2].name == name);
        }
        assert(q == q2);
    }
}

/// Adding a component keeps the names distinct.
pub proof fn lemma_insert_keeps_names_distinct(entries: Seq<ComponentView>, c: ComponentView)
    requires
        names_distinct(entries),
    ensures
        names_distinct(inserted(entries, c)),
{
    lemma_position_of(entries, c.name);
}

/// A collection built from any list of components has distinct names.
pub proof fn lemma_inserted_all_names_distinct(cs: Seq<ComponentView>)
    ensures
        names_distinct(inserted_all(Seq::empty(), cs)),
    decreases cs.len(),
{
    if cs.len() > 0 {
        lemma_inserted_all_names_distinct(cs.drop_last());
        lemma_insert_keeps_names_distinct(inserted_all(Seq::empty(), cs.drop_last()), cs.last());
    }
}

// ---------------------------------------------------------------------------
// Laws of what a source declares and uses
// ---------------------------------------------------------------------------

/// Two sources whose first match of the declaration pattern is the same
/// declare the same name, whatever follows it; a first match that is a
/// routes constant (no class name in group 1) gives the file name, and a
/// first match that is a class gives the class name.
pub proof fn lemma_declared_name_first_match(ts1: Seq<char>, ts2: Seq<char>, file_name: Seq<char>)
    requires
        regex_captures(C_NAME@, ts1) is Some,
        regex_captures(C_NAME@, ts1)->Some_0.len() > 0,
    ensures
        ({
            let first = regex_captures(C_NAME@, ts1)->Some_0[0];
            &&& (first.len() > 1 && first[1] is Some) ==> declared_name(ts1, file_name) == first[1].unwrap()
            &&& !(first.len() > 1 && first[1] is Some) ==> declared_name(ts1, file_name) == file_name
            &&& (regex_captures(C_NAME@, ts2) is Some && regex_captures(C_NAME@, ts2)->Some_0.len() > 0
                && regex_captures(C_NAME@, ts2)->Some_0[0] == first)
                ==> declared_name(ts2, file_name) == declared_name(ts1, file_name)
        }),
{
}

/// How many matches of `caps` fill group `g`.
pub open spec fn filled_count(caps: Seq<Seq<Option<Seq<char>>>>, g: int) -> nat
    decreases caps.len(),
{
    if caps.len() == 0 {
        0
    } else {
        filled_count(caps.drop_last(), g) + if 0 <= g < caps.last().len() && caps.last()[g] is Some {
            1nat
        } else {
            0nat
        }
    }
}

proof fn lemma_groups_at_every_match(caps: Seq<Seq<Option<Seq<char>>>>, g: int)
    ensures
        groups_at(caps, g).len() == filled_count(caps, g),
        forall|i: int|
            #![trigger caps[i]]
            0 <= i < caps.len() && 0 <= g < caps[i].len() && caps[i][g] is Some ==> filled_count(caps.take(i), g)
                < groups_at(caps, g).len() && groups_at(caps, g)[filled_count(caps.take(i), g) as int]
                == caps[i][g].unwrap(),
    decreases caps.len(),
{
    if caps.len() > 0 {
        let d = caps.drop_last();
        lemma_groups_at_every_match(d, g);
        assert forall|i: int|
            #![trigger caps[i]]
            0 <= i < caps.len() && 0 <= g < caps[i].len() && caps[i][g] is Some implies filled_count(caps.take(i), g)
                < groups_at(caps, g).len() && groups_at(caps, g)[filled_count(caps.take(i), g) as int]
                == caps[i][g].unwrap() by {
            if i < d.len() {
                assert(caps.take(i) =~= d.take(i));
                assert(d[i] == caps[i]);
            } else {
                assert(caps.take(i) =~= d);
            }
        }
    }
}

/// Group 1 of every match of `pattern` that fills it is listed, in the order
/// of the matches: as many entries as such matches, the one of the `i`-th
/// match after those of the matches before it.
pub proof fn lemma_all_groups_every_match(pattern: Seq<char>, text: Seq<char>)
    requires
        regex_captures(pattern, text) is Some,
    ensures
        ({
            let caps = regex_captures(pattern, text)->Some_0;
            &&& all_groups(pattern, text).len() == filled_count(caps, 1)
            &&& forall|i: int|
                #![trigger caps[i]]
                0 <= i < caps.len() && caps[i].len() > 1 && caps[i][1] is Some ==> filled_count(caps.take(i), 1)
                    < all_groups(pattern, text).len() && all_groups(pattern, text)[filled_count(caps.take(i), 1) as int]
                    == caps[i][1].unwrap()
        }),
{
    lemma_groups_at_every_match(regex_captures(pattern, text)->Some_0, 1);
}

/// The components a source uses are the class names of all its template's
/// selectors, in order, followed, when it has an `entryComponents` list, by
/// every comma-separated piece of that list trimmed, in order.
pub proof fn lemma_used_components_parts(template: Seq<char>, ts: Seq<char>)
    ensures
        ({
            let sel = all_groups(COMPONENTS@, template);
            let used = used_components_of(template, ts);
            &&& used.len() >= sel.len()
            &&& forall|k: int| 0 <= k < sel.len() ==> used[k] == component_name_of(#[trigger] sel[k])
            &&& first_capture(ENTRY@, ts) is None ==> used.len() == sel.len()
            &&& first_capture(ENTRY@, ts) matches Some(list) ==> {
                &&& used.len() == sel.len() + split_on(list, ',').len()
                &&& forall|k: int| 0 <= k < split_on(list, ',').len() ==> used[sel.len() + k] == trimmed(#[trigger] split_on(list, ',')[k])
            }
        }),
{
    let sel = all_groups(COMPONENTS@, template);
    let used = used_components_of(template, ts);
    if let Some(list) = first_capture(ENTRY@, ts) {
        let pieces = split_on(list, ',');
        assert forall|k: int| 0 <= k < pieces.len() implies used[sel.len() + k] == trimmed(#[trigger] pieces[k]) by {
            assert(used[sel.len() + k] == entry_names(pieces)[k]);
        }
    }
}

} // verus!
