use everdiff::diff::{diff, ArrayOrdering, Context, Difference};
use everdiff::snippet::{render, render_added, render_difference, render_removal, RenderContext, Theme};
use everdiff::source::{read_doc, YamlSource};

fn ctx_with(max_width: u16) -> RenderContext {
    RenderContext { max_width, visual_context: 5, theme: Theme::markers() }
}

fn ctx() -> RenderContext {
    ctx_with(80)
}

fn yaml_source(text: &str) -> YamlSource {
    read_doc(text, "").expect("to have parsed properly").remove(0)
}

fn differences(left: &YamlSource, right: &YamlSource, dynamic: bool) -> Vec<Difference> {
    let mut c = Context::new();
    if dynamic {
        c.array_ordering = ArrayOrdering::Dynamic;
    }
    diff(c, &left.yaml, &right.yaml)
}

#[test]
fn snippet_print_a_side_by_side_change() {
    let left_doc = yaml_source("person:\n  name: Steve E. Anderson\n  age: 12\n");
    let right_doc = yaml_source("person:\n  name: Robert Anderson\n  age: 12\n");
    let mut differences = differences(&left_doc, &right_doc, false);
    let first = differences.remove(0);
    let Difference::Changed { path, left, right } = first else {
        panic!("Should have gotten a Change");
    };
    let content = render_difference(&ctx(), &path, &left, &left_doc, &right, &right_doc);
    assert_eq!(content, "Changed: [bold].person.name[/]:\n│   1 │ [dim]person:[/]                 │   1 │ [dim]person:[/]                 \n│   2 │ [dim]  [/][yellow]name[/][dim]: [/][yellow]S[/][dim]t[/][yellow]eve E.[/][dim] Anderson[/]│   2 │ [dim]  [/][yellow]name[/][dim]: [/][yellow]Rober[/][dim]t Anderson[/]\n│   3 │ [dim]  age: 12[/]               │   3 │ [dim]  age: 12[/]               ");
}

#[test]
fn snippet_display_the_removal_of_a_node() {
    let left_doc = yaml_source("---\nperson:\n  name: Robert Anderson\n  address:\n    street: foo bar\n    nr: 1\n    postcode: ABC123\n  age: 12\n  foo: bar\n");
    let right_doc = yaml_source("---\nperson:\n  name: Robert Anderson\n  age: 12\n  foo: bar\n");
    let differences = differences(&left_doc, &right_doc, false);
    let content = render(&ctx(), &left_doc, &right_doc, &differences);
    assert_eq!(content, "Removed: .person.address:\n│   1 │ [dim]person:[/]                 │   1 │ [dim]person:[/]                 \n│   2 │ [dim]  name: Robert Anderson[/] │   2 │ [dim]  name: Robert Anderson[/] \n│   3 │ [red]  address:[/]              │     │                                 \n│   4 │ [red]    street: foo bar[/]     │     │                                 \n│   5 │ [red]    nr: 1[/]               │     │                                 \n│   6 │ [red]    postcode: ABC123[/]    │     │                                 \n│   7 │ [dim]  age: 12[/]               │   3 │ [dim]  age: 12[/]               \n│   8 │ [dim]  foo: bar[/]              │   4 │ [dim]  foo: bar[/]              \n\n");
}

#[test]
fn snippet_display_the_addition_of_a_node() {
    let left_doc = yaml_source("---\nperson:\n  name: Robert Anderson\n  age: 12\n  foo: bar\n");
    let right_doc = yaml_source("---\nperson:\n  name: Robert Anderson\n  address:\n    street: foo bar\n    nr: 1\n    postcode: ABC123\n  age: 12\n  foo: bar\n");
    let differences = differences(&left_doc, &right_doc, false);
    let content = render(&ctx(), &left_doc, &right_doc, &differences);
    assert_eq!(content, "Added: [bold].person.address[/]:\n│   1 │ [dim]person:[/]                 │   1 │ [dim]person:[/]                 \n│   2 │ [dim]  name: Robert Anderson[/] │   2 │ [dim]  name: Robert Anderson[/] \n│     │                                 │   3 │ [green]  address:[/]            \n│     │                                 │   4 │ [green]    street: foo bar[/]   \n│     │                                 │   5 │ [green]    nr: 1[/]             \n│     │                                 │   6 │ [green]    postcode: ABC123[/]  \n│   3 │ [dim]  age: 12[/]               │   7 │ [dim]  age: 12[/]               \n│   4 │ [dim]  foo: bar[/]              │   8 │ [dim]  foo: bar[/]              \n\n");
}

#[test]
fn snippet_display_addition_of_node_in_array() {
    let left_doc = yaml_source("---\npeople:\n  - name: Robert Anderson\n    age: 20\n  - name: Sarah Foo\n    age: 31\n");
    let right_doc = yaml_source("---\npeople:\n  - name: Robert Anderson\n    age: 20\n  - name: Adam Bar\n    age: 32\n  - name: Sarah Foo\n    age: 31\n");
    let mut differences = differences(&left_doc, &right_doc, true);
    let first = differences.remove(0);
    let Difference::Added { path, value } = first else {
        panic!("Should have gotten an Addition");
    };
    let content = render_added(&ctx(), &path, &value, &left_doc, &right_doc);
    assert_eq!(content, "│   1 │ [dim]people:[/]                 │   1 │ [dim]people:[/]                 \n│   2 │ [dim]  - name: Robert Anderson[/]│   2 │ [dim]  - name: Robert Anderson[/]\n│   3 │ [dim]    age: 20[/]             │   3 │ [dim]    age: 20[/]             \n│     │                                 │   4 │ [green]  - name: Adam Bar[/]    \n│     │                                 │   5 │ [green]    age: 32[/]           \n│   4 │ [dim]  - name: Sarah Foo[/]     │   6 │ [dim]  - name: Sarah Foo[/]     \n│   5 │ [dim]    age: 31[/]             │   7 │ [dim]    age: 31[/]             ");
}

#[test]
fn snippet_display_addition_at_start_of_array() {
    let left_doc = yaml_source("---\npeople:\n  - name: Robert Anderson\n    age: 20\n  - name: Sarah Foo\n    age: 31\n");
    let right_doc = yaml_source("---\npeople:\n  - name: New First Person\n    age: 25\n  - name: Robert Anderson\n    age: 20\n  - name: Sarah Foo\n    age: 31\n");
    let mut differences = differences(&left_doc, &right_doc, true);
    let first = differences.remove(0);
    let Difference::Added { path, value } = first else {
        panic!("Should have gotten an Addition");
    };
    let content = render_added(&ctx(), &path, &value, &left_doc, &right_doc);
    assert_eq!(content, "│   1 │ [dim]people:[/]                 │   1 │ [dim]people:[/]                 \n│     │                                 │   2 │ [green]  - name: New First Person[/]\n│     │                                 │   3 │ [green]    age: 25[/]           \n│   2 │ [dim]  - name: Robert Anderson[/]│   4 │ [dim]  - name: Robert Anderson[/]\n│   3 │ [dim]    age: 20[/]             │   5 │ [dim]    age: 20[/]             \n│   4 │ [dim]  - name: Sarah Foo[/]     │   6 │ [dim]  - name: Sarah Foo[/]     \n│   5 │ [dim]    age: 31[/]             │   7 │ [dim]    age: 31[/]             ");
}

#[test]
fn snippet_display_addition_at_start_of_deeply_nested_array() {
    let left_doc = yaml_source("---\napiVersion: apps/v1\nkind: Deployment\nmetadata:\n  name: my-app\nspec:\n  template:\n    spec:\n      containers:\n      - name: app\n        env:\n        - name: EXISTING_VAR\n          value: \"existing\"\n");
    let right_doc = yaml_source("---\napiVersion: apps/v1\nkind: Deployment\nmetadata:\n  name: my-app\nspec:\n  template:\n    spec:\n      containers:\n      - name: app\n        env:\n        - name: NEW_FIRST_VAR\n          value: \"new\"\n        - name: EXISTING_VAR\n          value: \"existing\"\n");
    let mut differences = differences(&left_doc, &right_doc, true);
    let first = differences.remove(0);
    let Difference::Added { path, value } = first else {
        panic!("Should have gotten an Addition");
    };
    assert_eq!(path.jq_like(), ".spec.template.spec.containers[0].env[0]");
    let content = render_added(&ctx(), &path, &value, &left_doc, &right_doc);
    assert_eq!(content, "│   6 │ [dim]  template:[/]             │   6 │ [dim]  template:[/]             \n│   7 │ [dim]    spec:[/]               │   7 │ [dim]    spec:[/]               \n│   8 │ [dim]      containers:[/]       │   8 │ [dim]      containers:[/]       \n│   9 │ [dim]      - name: app[/]       │   9 │ [dim]      - name: app[/]       \n│  10 │ [dim]        env:[/]            │  10 │ [dim]        env:[/]            \n│     │                                 │  11 │ [green]        - name: NEW_FIRST_VAR[/]\n│     │                                 │  12 │ [green]          value: \"new\"[/]\n│  11 │ [dim]        - name: EXISTING_VAR[/]│  13 │ [dim]        - name: EXISTING_VAR[/]\n│  12 │ [dim]          value: \"existing\"[/]│  14 │ [dim]          value: \"existing\"[/]");
}

#[test]
fn snippet_show_a_change_and_an_additon_at_the_same_time() {
    let left_doc = yaml_source("---\nperson:\n  name: Steve E. Anderson\n  age: 12\n");
    let right_doc = yaml_source("---\nperson:\n  name: Steven Anderson\n  location:\n    street: 1 Kentish Street\n    postcode: KS87JJ\n  age: 34\n");
    let differences = differences(&left_doc, &right_doc, false);
    let content = render(&ctx_with(80), &left_doc, &right_doc, &differences);
    assert_eq!(content, "Changed: [bold].person.name[/]:\n│   1 │ [dim]person:[/]                 │   1 │ [dim]person:[/]                 \n│   2 │ [dim]  [/][yellow]name[/][dim]: [/][dim]Steve[/][yellow] E.[/][dim] Anderson[/]│   2 │ [dim]  [/][yellow]name[/][dim]: [/][dim]Steve[/][yellow]n[/][dim] Anderson[/]\n│   3 │ [dim]  age: 12[/]               │   3 │ [dim]  location:[/]             \n│     │                                 │   4 │ [dim]    street: 1 Kentish Street[/]\n│     │                                 │   5 │ [dim]    postcode: KS87JJ[/]    \n│     │                                 │   6 │ [dim]  age: 34[/]               \n\nChanged: [bold].person.age[/]:\n│     │                                 │   1 │ [dim]person:[/]                 \n│     │                                 │   2 │ [dim]  name: Steven Anderson[/] \n│     │                                 │   3 │ [dim]  location:[/]             \n│   1 │ [dim]person:[/]                 │   4 │ [dim]    street: 1 Kentish Street[/]\n│   2 │ [dim]  name: Steve E. Anderson[/]│   5 │ [dim]    postcode: KS87JJ[/]    \n│   3 │ [yellow]  age: 12[/]            │   6 │ [yellow]  age: 34[/]            \n\nAdded: [bold].person.location[/]:\n│   1 │ [dim]person:[/]                 │   1 │ [dim]person:[/]                 \n│   2 │ [dim]  name: Steve E. Anderson[/]│   2 │ [dim]  name: Steven Anderson[/] \n│     │                                 │   3 │ [green]  location:[/]           \n│     │                                 │   4 │ [green]    street: 1 Kentish Street[/]\n│     │                                 │   5 │ [green]    postcode: KS87JJ[/]  \n│   3 │ [dim]  age: 12[/]               │   6 │ [dim]  age: 34[/]               \n\n");
}

#[test]
fn snippet_real_life_example() {
    let left_doc = yaml_source("---\napiVersion: v1\nkind: Service\nmetadata:\n  name: flux-engine-steam\n  namespace: classification\n  labels:\n    helm.sh/chart: flux-engine-steam-2.28.12\n    app.kubernetes.io/name: flux-engine-steam\n    app: flux-engine-steam\n    app.kubernetes.io/version: 0.0.27-pre1\n    app.kubernetes.io/managed-by: batman\n  annotations:\n    github.com/repository_url: git@github.com:flux-engine-steam\nspec:\n  ports:\n    - targetPort: 8501\n      port: 3000\n      name: https\n  selector:\n    app: flux-engine-steam\n");
    let right_doc = yaml_source("---\napiVersion: v1\nkind: Service\nmetadata:\n  name: flux-engine-steam\n  namespace: classification\n  labels:\n    helm.sh/chart: flux-engine-steam-2.28.12\n    app.kubernetes.io/name: flux-engine-steam\n    app: flux-engine-steam\n    app.kubernetes.io/version: 0.0.27-pre1\n    app.kubernetes.io/managed-by: batman\n  annotations:\n    github.com/repository_url: git@github.com:flux-engine-steam\n    this_is: new\nspec:\n  ports:\n    - targetPort: 8502\n      port: 3000\n      name: https\n  selector:\n    app: flux-engine-steam\n");
    let differences = differences(&left_doc, &right_doc, false);
    let content = render(&ctx_with(150), &left_doc, &right_doc, &differences);
    assert_eq!(content, "Added: [bold].metadata.annotations.this_is[/]:\n│   9 │ [dim]    app: flux-engine-steam[/]                                 │   9 │ [dim]    app: flux-engine-steam[/]                                 \n│  10 │ [dim]    app.kubernetes.io/version: 0.0.27-pre1[/]                 │  10 │ [dim]    app.kubernetes.io/version: 0.0.27-pre1[/]                 \n│  11 │ [dim]    app.kubernetes.io/managed-by: batman[/]                   │  11 │ [dim]    app.kubernetes.io/managed-by: batman[/]                   \n│  12 │ [dim]  annotations:[/]                                             │  12 │ [dim]  annotations:[/]                                             \n│  13 │ [dim]    github.com/repository_url: git@github.com:flux-engine-steam[/]│  13 │ [dim]    github.com/repository_url: git@github.com:flux-engine-steam[/]\n│     │                                                                    │  14 │ [green]    this_is: new[/]                                         \n│  14 │ [dim]spec:[/]                                                      │  15 │ [dim]spec:[/]                                                      \n│  15 │ [dim]  ports:[/]                                                   │  16 │ [dim]  ports:[/]                                                   \n│  16 │ [dim]    - targetPort: 8501[/]                                     │  17 │ [dim]    - targetPort: 8502[/]                                     \n│  17 │ [dim]      port: 3000[/]                                           │  18 │ [dim]      port: 3000[/]                                           \n│  18 │ [dim]      name: https[/]                                          │  19 │ [dim]      name: https[/]                                          \n\nChanged: [bold].spec.ports[0].targetPort[/]:\n│  11 │ [dim]    app.kubernetes.io/managed-by: batman[/]                   │  12 │ [dim]  annotations:[/]                                             \n│  12 │ [dim]  annotations:[/]                                             │  13 │ [dim]    github.com/repository_url: git@github.com:flux-engine-steam[/]\n│  13 │ [dim]    github.com/repository_url: git@github.com:flux-engine-steam[/]│  14 │ [dim]    this_is: new[/]                                           \n│  14 │ [dim]spec:[/]                                                      │  15 │ [dim]spec:[/]                                                      \n│  15 │ [dim]  ports:[/]                                                   │  16 │ [dim]  ports:[/]                                                   \n│  16 │ [yellow]    - targetPort: 8501[/]                                  │  17 │ [yellow]    - targetPort: 8502[/]                                  \n│  17 │ [dim]      port: 3000[/]                                           │  18 │ [dim]      port: 3000[/]                                           \n│  18 │ [dim]      name: https[/]                                          │  19 │ [dim]      name: https[/]                                          \n│  19 │ [dim]  selector:[/]                                                │  20 │ [dim]  selector:[/]                                                \n│  20 │ [dim]    app: flux-engine-steam[/]                                 │  21 │ [dim]    app: flux-engine-steam[/]                                 \n\n");
}

#[test]
fn snippet_display_removal_from_middle_of_array() {
    let left_doc = yaml_source("---\npeople:\n  - name: Alice\n    age: 25\n  - name: Bob\n    age: 30\n  - name: Charlie\n    age: 35\n");
    let right_doc = yaml_source("---\npeople:\n  - name: Alice\n    age: 25\n  - name: Charlie\n    age: 35\n");
    let mut differences = differences(&left_doc, &right_doc, true);
    let first = differences.remove(0);
    let Difference::Removed { path, value } = first else {
        panic!("Should have gotten an Removal");
    };
    let content = render_removal(&ctx(), &path, &value, &left_doc, &right_doc);
    assert_eq!(content, "│   1 │ [dim]people:[/]                 │   1 │ [dim]people:[/]                 \n│   2 │ [dim]  - name: Alice[/]         │   2 │ [dim]  - name: Alice[/]         \n│   3 │ [dim]    age: 25[/]             │   3 │ [dim]    age: 25[/]             \n│   4 │ [dim]  - name: Bob[/]           │   4 │ [dim]  - name: Charlie[/]       \n│   5 │ [dim]    age: 30[/]             │   5 │ [dim]    age: 35[/]             \n│   6 │ [red]  - name: Charlie[/]       │     │                                 \n│   7 │ [red]    age: 35[/]             │     │                                 ");
}

#[test]
fn snippet_display_removal_at_start_of_array() {
    let left_doc = yaml_source("---\npeople:\n  - name: First Person\n    age: 20\n  - name: Second Person\n    age: 30\n  - name: Third Person\n    age: 40\n");
    let right_doc = yaml_source("---\npeople:\n  - name: Second Person\n    age: 30\n  - name: Third Person\n    age: 40\n");
    let mut differences = differences(&left_doc, &right_doc, true);
    let first = differences.remove(0);
    let Difference::Removed { path, value } = first else {
        panic!("Should have gotten an Removal");
    };
    let content = render_removal(&ctx(), &path, &value, &left_doc, &right_doc);
    assert_eq!(content, "│   1 │ [dim]people:[/]                 │   1 │ [dim]people:[/]                 \n│   2 │ [dim]  - name: First Person[/]  │   2 │ [dim]  - name: Second Person[/] \n│   3 │ [dim]    age: 20[/]             │   3 │ [dim]    age: 30[/]             \n│   4 │ [dim]  - name: Second Person[/] │   4 │ [dim]  - name: Third Person[/]  \n│   5 │ [dim]    age: 30[/]             │   5 │ [dim]    age: 40[/]             \n│   6 │ [red]  - name: Third Person[/]  │     │                                 \n│   7 │ [red]    age: 40[/]             │     │                                 ");
}

#[test]
fn snippet_display_removal_where_before_node_is_complex_mapping() {
    let left_doc = yaml_source("---\nmetadata:\n  name: my-service\n  labels:\n    app: my-app\n    version: \"1.0\"\n    environment: production\n  annotations:\n    description: \"My service description\"\nspec:\n  replicas: 3\n");
    let right_doc = yaml_source("---\nmetadata:\n  name: my-service\n  labels:\n    app: my-app\n    version: \"1.0\"\n    environment: production\nspec:\n  replicas: 3\n");
    let differences = differences(&left_doc, &right_doc, false);
    let content = render(&ctx(), &left_doc, &right_doc, &differences);
    assert_eq!(content, "Removed: .metadata.annotations:\n│   2 │ [dim]  name: my-service[/]      │   2 │ [dim]  name: my-service[/]      \n│   3 │ [dim]  labels:[/]               │   3 │ [dim]  labels:[/]               \n│   4 │ [dim]    app: my-app[/]         │   4 │ [dim]    app: my-app[/]         \n│   5 │ [dim]    version: \"1.0\"[/]      │   5 │ [dim]    version: \"1.0\"[/]      \n│   6 │ [dim]    environment: production[/]│   6 │ [dim]    environment: production[/]\n│   7 │ [red]  annotations:[/]          │     │                                 \n│   8 │ [red]    description: \"My service des[/]│     │                                 \n│   ┆ │ [red]cription\"[/]               │     │                                 \n│   9 │ [dim]spec:[/]                   │   7 │ [dim]spec:[/]                   \n│  10 │ [dim]  replicas: 3[/]           │   8 │ [dim]  replicas: 3[/]           \n\n");
}

#[test]
fn snippet_display_change_within_array_element() {
    let left_doc = yaml_source("---\nservers:\n  - host: server1.example.com\n    port: 8080\n  - host: server2.example.com\n    port: 9090\n");
    let right_doc = yaml_source("---\nservers:\n  - host: server1.example.com\n    port: 8080\n  - host: server2.example.com\n    port: 9091\n");
    let differences = differences(&left_doc, &right_doc, true);
    let content = render(&ctx(), &left_doc, &right_doc, &differences);
    assert_eq!(content, "Changed: [bold].servers[1].port[/]:\n│   1 │ [dim]servers:[/]                │   1 │ [dim]servers:[/]                \n│   2 │ [dim]  - host: server1.example.com[/]│   2 │ [dim]  - host: server1.example.com[/]\n│   3 │ [dim]    port: 8080[/]          │   3 │ [dim]    port: 8080[/]          \n│   4 │ [dim]  - host: server2.example.com[/]│   4 │ [dim]  - host: server2.example.com[/]\n│   5 │ [yellow]    port: 9090[/]       │   5 │ [yellow]    port: 9091[/]       \n\n");
}

#[test]
fn snippet_display_removal_of_last_key_in_mapping() {
    let left_doc = yaml_source("---\nconfig:\n  database:\n    host: localhost\n    port: 5432\n  cache:\n    enabled: true\n    ttl: 3600\n");
    let right_doc = yaml_source("---\nconfig:\n  database:\n    host: localhost\n    port: 5432\n");
    let differences = differences(&left_doc, &right_doc, false);
    let content = render(&ctx(), &left_doc, &right_doc, &differences);
    assert_eq!(content, "Removed: .config.cache:\n│   1 │ [dim]config:[/]                 │   1 │ [dim]config:[/]                 \n│   2 │ [dim]  database:[/]             │   2 │ [dim]  database:[/]             \n│   3 │ [dim]    host: localhost[/]     │   3 │ [dim]    host: localhost[/]     \n│   4 │ [dim]    port: 5432[/]          │   4 │ [dim]    port: 5432[/]          \n│   5 │ [red]  cache:[/]                │     │                                 \n│   6 │ [red]    enabled: true[/]       │     │                                 \n│   7 │ [red]    ttl: 3600[/]           │     │                                 \n\n");
}

#[test]
fn snippet_display_addition_of_last_key_in_mapping() {
    let left_doc = yaml_source("---\nconfig:\n  database:\n    host: localhost\n    port: 5432\n");
    let right_doc = yaml_source("---\nconfig:\n  database:\n    host: localhost\n    port: 5432\n  cache:\n    enabled: true\n    ttl: 3600\n");
    let differences = differences(&left_doc, &right_doc, false);
    let content = render(&ctx(), &left_doc, &right_doc, &differences);
    assert_eq!(content, "Added: [bold].config.cache[/]:\n│   1 │ [dim]config:[/]                 │   1 │ [dim]config:[/]                 \n│   2 │ [dim]  database:[/]             │   2 │ [dim]  database:[/]             \n│   3 │ [dim]    host: localhost[/]     │   3 │ [dim]    host: localhost[/]     \n│   4 │ [dim]    port: 5432[/]          │   4 │ [dim]    port: 5432[/]          \n│     │                                 │   5 │ [green]  cache:[/]              \n│     │                                 │   6 │ [green]    enabled: true[/]     \n│     │                                 │   7 │ [green]    ttl: 3600[/]         \n\n");
}

#[test]
fn display_addition_of_final_key_in_document() {
    let left_doc = yaml_source("---\nperson:\n  name: Alice\n  age: 30\n");
    let right_doc = yaml_source("---\nperson:\n  name: Alice\n  age: 30\n  city: London\n");
    let differences = differences(&left_doc, &right_doc, false);
    let content = render(&ctx(), &left_doc, &right_doc, &differences);
    assert_eq!(content, "Added: [bold].person.city[/]:\n│   1 │ [dim]person:[/]                 │   1 │ [dim]person:[/]                 \n│   2 │ [dim]  name: Alice[/]           │   2 │ [dim]  name: Alice[/]           \n│   3 │ [dim]  age: 30[/]               │   3 │ [dim]  age: 30[/]               \n│     │                                 │   4 │ [green]  city: London[/]        \n\n");
}

#[test]
fn snippet_display_removal_of_last_element_in_array() {
    let left_doc = yaml_source("---\nitems:\n  - first\n  - second\n  - third\n");
    let right_doc = yaml_source("---\nitems:\n  - first\n  - second\n");
    let mut differences = differences(&left_doc, &right_doc, true);
    let first = differences.remove(0);
    let Difference::Removed { path, value } = first else {
        panic!("Should have gotten an Removal");
    };
    let content = render_removal(&ctx(), &path, &value, &left_doc, &right_doc);
    assert_eq!(content, "│   1 │ [dim]items:[/]                  │   1 │ [dim]items:[/]                  \n│   2 │ [dim]  - first[/]               │   2 │ [dim]  - first[/]               \n│   3 │ [dim]  - second[/]              │   3 │ [dim]  - second[/]              \n│   4 │ [red]  - third[/]               │     │                                 ");
}

#[test]
fn snippet_display_addition_of_element_at_end_of_array() {
    let left_doc = yaml_source("---\nitems:\n  - first\n  - second\n");
    let right_doc = yaml_source("---\nitems:\n  - first\n  - second\n  - third\n");
    let mut differences = differences(&left_doc, &right_doc, true);
    let first = differences.remove(0);
    let Difference::Added { path, value } = first else {
        panic!("Should have gotten an Addition");
    };
    let content = render_added(&ctx(), &path, &value, &left_doc, &right_doc);
    assert_eq!(content, "│   1 │ [dim]items:[/]                  │   1 │ [dim]items:[/]                  \n│   2 │ [dim]  - first[/]               │   2 │ [dim]  - first[/]               \n│   3 │ [dim]  - second[/]              │   3 │ [dim]  - second[/]              \n│     │                                 │   4 │ [green]  - third[/]             ");
}

use everdiff::diff::Item;
use everdiff::inline_diff::{compute_inline_diff, extract_yaml_prefix, InlinePart};
use everdiff::line::Line;
use everdiff::path::{Path, Segment};
use everdiff::snippet::{gap_start, Snippet, SnippetError};
use everdiff::yaml::{Node, YamlData};

fn numbered(snippet: &Snippet) -> Vec<(usize, String)> {
    snippet.iter().into_iter().map(|(nr, content)| (nr.get(), content)).collect()
}

fn letters(n: usize) -> Vec<String> {
    "abcdefgh".chars().take(n).map(|c| c.to_string()).collect()
}

#[test]
fn snippet_lines_of_simple_snippet() {
    let content = letters(5);
    let snippet = Snippet::new_clamped(&content, Line::unchecked(2), Line::unchecked(4));
    assert_eq!(
        vec![(2, "b".to_string()), (3, "c".to_string()), (4, "d".to_string())],
        numbered(&snippet)
    );
}

#[test]
fn snippet_splitting_a_snippet() {
    let content = letters(8);
    let snippet = Snippet::new_clamped(&content, Line::unchecked(2), Line::unchecked(8));
    let (first, second) = snippet.split(Line::unchecked(6));
    assert_eq!(
        vec![
            (2, "b".to_string()),
            (3, "c".to_string()),
            (4, "d".to_string()),
            (5, "e".to_string()),
            (6, "f".to_string())
        ],
        numbered(&first)
    );
    assert_eq!(vec![(7, "g".to_string()), (8, "h".to_string())], numbered(&second));
}

/// The first entry of the top-level mapping of `raw`, as an item.
fn first_entry(raw: &str) -> Item {
    let yaml = read_doc(raw, "").unwrap().remove(0).yaml;
    let YamlData::Mapping(mut entries) = yaml.data else {
        panic!("expected a mapping");
    };
    let entry = entries.remove(0);
    Item::KV { key: entry.key, key_span: entry.key_span, value: entry.value }
}

#[test]
fn snippet_height_of_simple_string() {
    assert_eq!(1, first_entry("element: \"Hi there\"\n").height());
}

#[test]
fn snippet_height_of_multiline_string() {
    assert_eq!(4, first_entry("element: |\n  This is\n  great and many\n  lines long\n").height());
}

#[test]
fn snippet_height_of_boolean() {
    assert_eq!(1, first_entry("element: true\n").height());
}

#[test]
fn snippet_height_of_integer() {
    assert_eq!(1, first_entry("element: 7\n").height());
}

#[test]
fn snippet_height_of_null() {
    assert_eq!(1, first_entry("element: ~\n").height());
}

#[test]
fn snippet_height_of_sequence() {
    let raw = "element: \n  - first\n  - second\n  - third: 3\n    name: dfjsdklf\n";
    assert_eq!(5, first_entry(raw).height());
}

#[test]
fn snippet_height_of_array_element() {
    let raw = "thing:\n  - foo: 1\n  - foo: 2\n    bar: yay!\n  - foo: 3\n    bar: yay!\n    wtf: true\n";
    let Item::KV { value, .. } = first_entry(raw) else {
        panic!("expected an entry");
    };
    let YamlData::Sequence(mut items) = value.data else {
        panic!("expected a sequence");
    };
    let second: Node = items.remove(1);
    let item = Item::ArrayElement { index: 1, value: second };
    assert_eq!(2, item.height());
}

#[test]
fn snippet_height_of_mapping() {
    let raw = "element:\n  thing: 3\n  goo:\n    dfjsdklf: 1\n    item: glasses\n";
    assert_eq!(5, first_entry(raw).height());
}

fn path_of(fields: &[&str]) -> Path {
    let mut p = Path::new();
    for f in fields {
        p = p.push(Segment::field(f));
    }
    p
}

#[test]
fn snippet_clean_split_down_the_middle() {
    let primary = yaml_source(
        "---\nperson:\n  name: Steve E. Anderson\n  location:\n    street: 1 Kentish Street\n    postcode: KS87JJ\n  age: 12\n",
    );
    let secondary = yaml_source("---\nperson:\n  name: Steve E. Anderson\n  age: 12\n");
    let location = path_of(&["person", "location"]);
    let actual_start = gap_start(&primary, &secondary, &location);
    assert_eq!(actual_start, Some(Line::unchecked(2)));
}

#[test]
fn snippet_example() {
    let primary = yaml_source(
        "---\napiVersion: v1\nkind: Service\nmetadata:\n  name: flux-engine-steam\n  namespace: classification\n  labels:\n    app.kubernetes.io/managed-by: batman\n  annotations:\n    github.com/repository_url: git@github.com:flux-engine-steam\n    this_is: new\nspec:\n  ports:\n    - port: 3000\n",
    );
    let secondary = yaml_source(
        "---\napiVersion: v1\nkind: Service\nmetadata:\n  name: flux-engine-steam\n  namespace: classification\n  labels:\n    app.kubernetes.io/managed-by: batman\n  annotations:\n    github.com/repository_url: git@github.com:flux-engine-steam\nspec:\n  ports:\n    - port: 3000\n",
    );
    let location = path_of(&["metadata", "annotations", "this_is"]);
    let actual_start = gap_start(&primary, &secondary, &location);
    assert_eq!(actual_start, Some(Line::new(9).unwrap()));
}

#[test]
fn empty_path_cannot_be_converted_to_non_empty_path() {
    // An empty path names the document itself: it has no parent.
    assert!(Path::new().parent().is_none());
    assert_eq!(Path::new().len(), 0);
}

#[test]
fn gap_start_returns_none_when_parent_path_missing_from_primary() {
    let doc = yaml_source("---\nreal: value\n");
    let path = path_of(&["ghost", "field"]);
    assert!(gap_start(&doc, &doc, &path).is_none());
}

#[test]
fn gap_start_returns_none_when_field_segment_points_into_sequence() {
    let doc = yaml_source("---\nitems:\n  - foo\n  - bar\n");
    let path = Path::from_unchecked(vec![Segment::field("items"), Segment::field("name")]);
    assert!(gap_start(&doc, &doc, &path).is_none());
}

#[test]
fn gap_start_returns_none_when_index_segment_points_into_mapping() {
    let doc = yaml_source("---\ndata:\n  key1: val1\n  key2: val2\n");
    let path = Path::from_unchecked(vec![Segment::field("data"), Segment::index(0)]);
    assert!(gap_start(&doc, &doc, &path).is_none());
}

/// The parts with `[...]` around the emphasised ones.
fn reconstruct(parts: &[InlinePart]) -> String {
    parts
        .iter()
        .map(|p| if p.emphasized { format!("[{}]", p.text) } else { p.text.clone() })
        .collect()
}

#[test]
fn version_change_highlights_only_differing_parts() {
    let (left_parts, right_parts) = compute_inline_diff("v1.34.7-build1", "v1.35.0-build1");
    assert_eq!(reconstruct(&left_parts), "v1.3[4].[7]-build1");
    assert_eq!(reconstruct(&right_parts), "v1.3[5].[0]-build1");
}

#[test]
fn partial_string_change() {
    let (left_parts, right_parts) = compute_inline_diff("Hello World", "Hello Universe");
    assert_eq!(reconstruct(&left_parts), "Hello [Wo]r[ld]");
    assert_eq!(reconstruct(&right_parts), "Hello [Unive]r[se]");
}

#[test]
fn completely_different_strings() {
    let (left_parts, right_parts) = compute_inline_diff("abc", "xyz");
    assert_eq!(reconstruct(&left_parts), "[abc]");
    assert_eq!(reconstruct(&right_parts), "[xyz]");
}

#[test]
fn identical_strings_no_emphasis() {
    let (left_parts, right_parts) = compute_inline_diff("same", "same");
    assert_eq!(reconstruct(&left_parts), "same");
    assert_eq!(reconstruct(&right_parts), "same");
}

#[test]
fn full_image_path_change() {
    let left = "registry.k8s.io/kube-proxy:v1.33.1";
    let right = "registry.k8s.io/kube-proxy:v1.35.0";
    let (left_parts, right_parts) = compute_inline_diff(left, right);
    assert_eq!(reconstruct(&left_parts), "registry.k8s.io/kube-proxy:v1.3[3].[1]");
    assert_eq!(reconstruct(&right_parts), "registry.k8s.io/kube-proxy:v1.3[5].[0]");
}

#[test]
fn yaml_prefix_of_key_value_and_array_item() {
    assert_eq!(extract_yaml_prefix("  image: registry.k8s.io/kube-proxy:v1.33.1"), "  image: ");
    assert_eq!(extract_yaml_prefix("    - value"), "    - ");
    assert_eq!(extract_yaml_prefix("plain"), "");
}

#[test]
fn a_changed_number_is_shown_whole_in_the_changed_style() {
    let left_doc = yaml_source("a: 1\nb: x\n");
    let right_doc = yaml_source("a: 2\nb: x\n");
    let mut differences = differences(&left_doc, &right_doc, false);
    let Difference::Changed { path, left, right } = differences.remove(0) else {
        panic!("Should have gotten a Change");
    };
    let content = render_difference(&ctx(), &path, &left, &left_doc, &right, &right_doc);
    assert_eq!(
        content,
        "Changed: [bold].a[/]:\n│   1 │ [yellow]a: 1[/]                 │   1 │ [yellow]a: 2[/]                 \n│   2 │ [dim]b: x[/]                    │   2 │ [dim]b: x[/]                    "
    );
}

#[test]
fn no_differences_render_nothing() {
    let doc = yaml_source("a: 1\n");
    assert_eq!(render(&ctx(), &doc, &doc, &Vec::new()), "");
}

#[test]
fn a_snippet_needs_to_after_from_and_within_the_lines() {
    let content = letters(5);
    let s = Snippet::try_new(&content, Line::unchecked(2), Line::unchecked(4)).unwrap();
    assert_eq!(numbered(&s), vec![(2, "b".to_string()), (3, "c".to_string()), (4, "d".to_string())]);
    assert!(matches!(
        Snippet::try_new(&content, Line::unchecked(4), Line::unchecked(4)),
        Err(SnippetError::ToNotAfterFrom)
    ));
    assert!(matches!(
        Snippet::try_new(&content, Line::unchecked(1), Line::unchecked(6)),
        Err(SnippetError::OutOfBounds)
    ));
}
