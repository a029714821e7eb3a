use component_translations::component::{AngularComponent, AngularComponents, ComponentType};
use component_translations::structure::AngularStructure;
use component_translations::utilities::remove_empty_and_ignored;

fn s(x: &str) -> String {
    x.to_string()
}

fn ts_component(file: &str, ts: &str) -> AngularComponent {
    AngularComponent::new(s(file), format!("src/{}", file), None, s(ts), String::new())
}

#[test]
fn kind_follows_second_part_of_file_name() {
    assert_eq!(ts_component("user.component.ts", "").kind, ComponentType::Component);
    assert_eq!(ts_component("user.service.ts", "").kind, ComponentType::Service);
    assert_eq!(ts_component("user.directive.ts", "").kind, ComponentType::Directive);
    assert_eq!(ts_component("user.module.ts", "").kind, ComponentType::Module);
    assert_eq!(ts_component("app.routing.ts", "").kind, ComponentType::Route);
    assert_eq!(ts_component("user.spec.ts", "").kind, ComponentType::Ignore);
    assert_eq!(ts_component("main.ts", "").kind, ComponentType::Ignore);
    assert_eq!(ts_component("main", "").kind, ComponentType::Ignore);
    assert_eq!(ts_component("a.component", "").kind, ComponentType::Component);
}

#[test]
fn name_is_the_declared_class() {
    let c = ts_component("user.component.ts", "import x;\nexport class UserComponent implements OnInit {\n}");
    assert_eq!(c.name, "UserComponent");
    let generic = ts_component("list.component.ts", "export class ListComponent<T> {}");
    assert_eq!(generic.name, "ListComponent");
}

#[test]
fn name_of_routing_file_is_its_file_name() {
    let c = ts_component("app.routing.ts", "const routes: Routes = [\n];");
    assert_eq!(c.name, "app.routing.ts");
}

#[test]
fn name_is_empty_without_declaration() {
    let c = ts_component("main.ts", "console.log(1);");
    assert_eq!(c.name, "");
}

#[test]
fn translations_of_code_then_template() {
    let c = AngularComponent::new(
        s("user.component.ts"),
        s("src/user.component.ts"),
        Some(s("src/user.component.html")),
        s("x = this.translate.instant('user.title'); y = this.translate.instant(\"user.name\");"),
        s("<h1>{{ 'page.header' | translate }}</h1><p>{{'page.body'|translate}}</p>"),
    );
    assert_eq!(c.translations, vec![s("user.title"), s("user.name"), s("page.header"), s("page.body")]);
}

#[test]
fn template_is_ignored_without_html_path() {
    let c = AngularComponent::new(
        s("user.component.ts"),
        s("src/user.component.ts"),
        None,
        s("this.translate.instant('a')"),
        s("{{ 'b' | translate }}"),
    );
    assert_eq!(c.translations, vec![s("a")]);
    assert_eq!(c.open_html(), "");
    assert_eq!(c.open_ts(), "this.translate.instant('a')");
}

#[test]
fn used_components_from_template_and_entry_list() {
    let c = AngularComponent::new(
        s("shell.component.ts"),
        s("src/shell.component.ts"),
        Some(s("src/shell.component.html")),
        s("@NgModule({ entryComponents: [\n    FooComponent,\n    BarComponent\n  ]})"),
        s("<app-user-list></app-user-list><div><app-nav-bar x=1></app-nav-bar></div>"),
    );
    assert_eq!(
        c.get_used_components(),
        vec![s("UserListComponent"), s("NavBarComponent"), s("FooComponent"), s("BarComponent")]
    );
}

#[test]
fn find_sibling_points_at_template() {
    assert_eq!(AngularComponent::find_sibling(&s("src/app/user.component.ts")), "src/app/user.component.html");
}

#[test]
fn later_component_of_same_name_replaces_earlier() {
    let a = ts_component("a.component.ts", "export class AComponent {}");
    let b = ts_component("b.component.ts", "export class BComponent {}");
    let a2 = ts_component("a2.component.ts", "export class AComponent {}");
    let comps = AngularComponents::new(vec![a, b, a2]);
    assert_eq!(comps.len(), 2);
    assert_eq!(comps.get("AComponent").unwrap().file_name, "a2.component.ts");
    assert_eq!(comps.get("BComponent").unwrap().file_name, "b.component.ts");
    assert!(comps.get("CComponent").is_none());
}

#[test]
fn insert_then_get_gives_it_back() {
    let mut comps = AngularComponents::new(vec![]);
    comps.insert(ts_component("x.service.ts", "export class XService {}"));
    assert_eq!(comps.get("XService").unwrap().kind, ComponentType::Service);
    comps.insert(ts_component("y.service.ts", "export class YService {}"));
    assert_eq!(comps.get("XService").unwrap().file_name, "x.service.ts");
    assert_eq!(comps.position("YService"), Some(1));
}

#[test]
fn component_clone_is_equal() {
    let c = ts_component("x.service.ts", "export class XService { a = this.translate.instant('k'); }");
    let d = c.clone();
    assert_eq!(d.name, c.name);
    assert_eq!(d.translations, c.translations);
    assert_eq!(d.path, c.path);
}

#[test]
fn components_by_kind() {
    let structure = AngularStructure::new(vec![
        ts_component("a.component.ts", "export class AComponent {}"),
        ts_component("app.routing.ts", "const routes: Routes = [\n];"),
        ts_component("b.component.ts", "export class BComponent {}"),
    ]);
    let comps = structure.get_component_by_kind(ComponentType::Component);
    let names: Vec<String> = comps.iter().map(|c| c.name.clone()).collect();
    assert_eq!(names, vec![s("AComponent"), s("BComponent")]);
    let routes = structure.get_component_by_kind(ComponentType::Route);
    assert_eq!(routes.len(), 1);
    assert_eq!(routes[0].file_name, "app.routing.ts");
    assert!(structure.get_component_by_kind(ComponentType::Directive).is_empty());
}

#[test]
fn reported_components_have_kind_and_keys() {
    let keep = ts_component("a.component.ts", "export class AComponent { t = this.translate.instant('a'); }");
    let no_keys = ts_component("b.component.ts", "export class BComponent {}");
    let ignored = ts_component("main.ts", "this.translate.instant('m')");
    let kept = remove_empty_and_ignored(vec![keep, no_keys, ignored]);
    assert_eq!(kept.len(), 1);
    assert_eq!(kept[0].name, "AComponent");
}
