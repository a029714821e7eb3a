use component_translations::component::{AngularComponent, AngularComponents};
use component_translations::structure::route::{AngularRoutes, RouteError};
use component_translations::structure::AngularStructure;

fn s(x: &str) -> String {
    x.to_string()
}

fn component(file: &str, ts: &str, html: Option<&str>) -> AngularComponent {
    AngularComponent::new(
        s(file),
        format!("src/{}", file),
        html.map(|_| format!("src/{}.html", file)),
        s(ts),
        s(html.unwrap_or("")),
    )
}

fn class(file: &str, name: &str, html: Option<&str>) -> AngularComponent {
    component(file, &format!("export class {} {{\n}}\n", name), html)
}

fn routes_of(table: &AngularRoutes) -> Vec<(String, Vec<String>)> {
    table.value.clone()
}

const FLAT: &str = "const routes: Routes = [
    { path: 'home', component: HomeComponent },
    { path: 'about', component: AboutComponent }
];
";

#[test]
fn flat_routes_list_their_components() {
    let routing = component("app.routing.ts", FLAT, None);
    let comps = AngularComponents::new(vec![
        class("home.component.ts", "HomeComponent", None),
        class("about.component.ts", "AboutComponent", None),
        routing.clone(),
    ]);
    let table = AngularRoutes::new(&routing, &comps);
    assert_eq!(
        routes_of(&table),
        vec![(s("home"), vec![s("HomeComponent")]), (s("about"), vec![s("AboutComponent")])]
    );
}

#[test]
fn used_components_are_followed() {
    let routing = component("app.routing.ts", FLAT, None);
    let comps = AngularComponents::new(vec![
        class("home.component.ts", "HomeComponent", Some("<app-user-list></app-user-list>")),
        class("user-list.component.ts", "UserListComponent", Some("<app-user-card></app-user-card>")),
        class("user-card.component.ts", "UserCardComponent", None),
        class("about.component.ts", "AboutComponent", None),
    ]);
    let table = AngularRoutes::new(&routing, &comps);
    assert_eq!(
        routes_of(&table),
        vec![
            (s("home"), vec![s("HomeComponent"), s("UserListComponent"), s("UserCardComponent")]),
            (s("about"), vec![s("AboutComponent")]),
        ]
    );
}

const NESTED: &str = "const routes: Routes = [
    {
        path: 'admin',
        component: AdminComponent,
        children: [
            { path: 'users', component: UsersComponent }
        ]
    },
    { path: '', component: HomeComponent }
];
";

#[test]
fn children_extend_path_and_inherit_components() {
    let routing = component("app.routing.ts", NESTED, None);
    let comps = AngularComponents::new(vec![
        class("admin.component.ts", "AdminComponent", None),
        class("users.component.ts", "UsersComponent", None),
        class("home.component.ts", "HomeComponent", None),
    ]);
    let table = AngularRoutes::new(&routing, &comps);
    assert_eq!(
        routes_of(&table),
        vec![
            (s("admin"), vec![s("AdminComponent")]),
            (s("adminusers"), vec![s("UsersComponent"), s("AdminComponent")]),
            (s("/"), vec![s("HomeComponent")]),
        ]
    );
}

const LAZY: &str = "const routes: Routes = [
    { path: 'shop', loadChildren: './shop/shop.module#ShopModule' }
];
";

const SHOP: &str = "const shopRoutes: Routes = [
    { path: 'cart', component: CartComponent },
    { path: 'cart', component: CartComponent }
];
";

#[test]
fn lazy_modules_are_read_under_the_path_and_repeats_removed() {
    let routing = component("app.routing.ts", LAZY, None);
    let comps = AngularComponents::new(vec![
        component("shop.routing.ts", SHOP, None),
        class("cart.component.ts", "CartComponent", None),
    ]);
    let table = AngularRoutes::new(&routing, &comps);
    assert_eq!(routes_of(&table), vec![(s("shopcart"), vec![s("CartComponent")])]);
}

#[test]
fn missing_route_list_is_an_error() {
    let not_routing = class("home.component.ts", "HomeComponent", None);
    let comps = AngularComponents::new(vec![]);
    match AngularRoutes::try_new(&not_routing, &comps) {
        Err(RouteError::NoRoutes(f)) => assert_eq!(f, "home.component.ts"),
        _ => panic!("expected NoRoutes"),
    }
}

#[test]
fn unknown_component_is_an_error() {
    let routing = component("app.routing.ts", FLAT, None);
    let comps = AngularComponents::new(vec![class("home.component.ts", "HomeComponent", None)]);
    match AngularRoutes::try_new(&routing, &comps) {
        Err(RouteError::UnknownComponent(n)) => assert_eq!(n, "AboutComponent"),
        _ => panic!("expected UnknownComponent"),
    }
}

#[test]
fn components_in_a_circle_are_an_error() {
    let routing = component("app.routing.ts", FLAT, None);
    let comps = AngularComponents::new(vec![
        class("home.component.ts", "HomeComponent", Some("<app-a></app-a>")),
        class("a.component.ts", "AComponent", Some("<app-home></app-home>")),
        class("about.component.ts", "AboutComponent", None),
    ]);
    match AngularRoutes::try_new(&routing, &comps) {
        Err(RouteError::ComponentCycle(n)) => assert_eq!(n, "HomeComponent"),
        _ => panic!("expected ComponentCycle"),
    }
}

const SELF_LOAD: &str = "const routes: Routes = [
    { path: 'again', loadChildren: './loop/loop.module#LoopModule' }
];
";

#[test]
fn routing_files_loading_each_other_are_an_error() {
    let routing = component("loop.routing.ts", SELF_LOAD, None);
    let comps = AngularComponents::new(vec![routing.clone()]);
    match AngularRoutes::try_new(&routing, &comps) {
        Err(RouteError::LoadCycle(f)) => assert_eq!(f, "loop.routing.ts"),
        _ => panic!("expected LoadCycle"),
    }
}

#[test]
fn unknown_lazy_module_is_an_error() {
    let routing = component("app.routing.ts", LAZY, None);
    let comps = AngularComponents::new(vec![]);
    match AngularRoutes::try_new(&routing, &comps) {
        Err(RouteError::UnknownComponent(f)) => assert_eq!(f, "shop.routing.ts"),
        _ => panic!("expected UnknownComponent"),
    }
}

#[test]
fn structure_reads_routes_of_its_components() {
    let routing = component("app.routing.ts", FLAT, None);
    let mut structure = AngularStructure::new(vec![
        class("home.component.ts", "HomeComponent", None),
        class("about.component.ts", "AboutComponent", None),
        routing.clone(),
    ]);
    assert!(structure.routes.value.is_empty());
    let chosen = structure.components.get("app.routing.ts").unwrap().clone();
    structure.setup_routes(&chosen);
    assert_eq!(structure.routes.value.len(), 2);
    let mut failing = AngularStructure::new(vec![]);
    assert!(failing.try_setup_routes(&routing).is_err());
    assert!(failing.routes.value.is_empty());
}

#[test]
fn dedup_keeps_first_occurrences() {
    let mut table = AngularRoutes::empty();
    table.add_components(&s("a"), vec![s("X"), s("Y"), s("X")]);
    table.add_components(&s("b"), vec![s("Z")]);
    table.add_components(&s("a"), vec![s("Y"), s("W")]);
    assert_eq!(table.components_of(&s("a")), vec![s("X"), s("Y"), s("X"), s("Y"), s("W")]);
    table.dedup();
    assert_eq!(routes_of(&table), vec![(s("a"), vec![s("X"), s("Y"), s("W")]), (s("b"), vec![s("Z")])]);
}

#[test]
fn find_components_lists_depth_first() {
    let comps = AngularComponents::new(vec![
        class("a.component.ts", "AComponent", Some("<app-b></app-b><app-c></app-c>")),
        class("b.component.ts", "BComponent", Some("<app-c></app-c>")),
        class("c.component.ts", "CComponent", None),
    ]);
    let table = AngularRoutes::empty();
    let mut found = vec![s("AComponent")];
    table.find_components(&s("AComponent"), &mut found, &comps, &vec![]);
    assert_eq!(found, vec![s("AComponent"), s("BComponent"), s("CComponent"), s("CComponent")]);
}

#[test]
fn try_new_succeeds_where_new_does() {
    let routing = component("app.routing.ts", FLAT, None);
    let comps = AngularComponents::new(vec![
        class("home.component.ts", "HomeComponent", None),
        class("about.component.ts", "AboutComponent", None),
    ]);
    let a = AngularRoutes::try_new(&routing, &comps).unwrap();
    let b = AngularRoutes::new(&routing, &comps);
    assert_eq!(a.value, b.value);
}

#[test]
fn try_find_components_reports_unknown_names() {
    let comps = AngularComponents::new(vec![class("a.component.ts", "AComponent", Some("<app-missing></app-missing>"))]);
    let table = AngularRoutes::empty();
    let mut found = vec![];
    match table.try_find_components(&s("AComponent"), &mut found, &comps, &vec![]) {
        Err(RouteError::UnknownComponent(n)) => assert_eq!(n, "MissingComponent"),
        _ => panic!("expected UnknownComponent"),
    }
}

#[test]
fn reading_routes_only_extends_existing_entries() {
    let comps = AngularComponents::new(vec![
        class("home.component.ts", "HomeComponent", None),
        class("about.component.ts", "AboutComponent", None),
    ]);
    let mut table = AngularRoutes::empty();
    table.add_components(&s("about"), vec![s("Earlier")]);
    table.add_components(&s("other"), vec![s("Kept")]);
    let routes = s("[\n    { path: 'home', component: HomeComponent },\n    { path: 'about', component: AboutComponent }\n]");
    table.setup_route_hierarchy(&routes, &s(""), None, &comps, &vec![]);
    assert_eq!(
        routes_of(&table),
        vec![
            (s("about"), vec![s("Earlier"), s("AboutComponent")]),
            (s("other"), vec![s("Kept")]),
            (s("home"), vec![s("HomeComponent")]),
        ]
    );
}
