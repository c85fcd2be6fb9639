use agentik::skills::{find_dotpath, list_skills, SkillNode};

fn node(dotpath: &str, name: &str, user: bool, model: bool, children: Vec<SkillNode>) -> SkillNode {
    SkillNode {
        dotpath: dotpath.to_string(),
        name: name.to_string(),
        user_invocable: user,
        model_invocable: model,
        children,
    }
}

fn tree() -> SkillNode {
    node(
        "root",
        "root",
        false,
        false,
        vec![
            node("root.a", "alpha", true, false, vec![node("root.a.x", "x", true, true, vec![])]),
            node("root.b", "beta", false, true, vec![]),
            node("root.c", "x", true, true, vec![]),
        ],
    )
}

fn paths(r: &[agentik::skills::SkillEntry]) -> Vec<&str> {
    r.iter().map(|e| e.dotpath.as_str()).collect()
}

#[test]
fn skills_are_listed_in_preorder() {
    let t = tree();
    let all = list_skills(Some(&t), false, false);
    assert_eq!(paths(&all), vec!["root", "root.a", "root.a.x", "root.b", "root.c"]);
    assert!(list_skills(None, false, false).is_empty());
}

#[test]
fn skills_are_filtered() {
    let t = tree();
    assert_eq!(paths(&list_skills(Some(&t), true, false)), vec!["root.a", "root.a.x", "root.c"]);
    assert_eq!(paths(&list_skills(Some(&t), false, true)), vec!["root.a.x", "root.b", "root.c"]);
    assert_eq!(paths(&list_skills(Some(&t), true, true)), vec!["root.a.x", "root.c"]);
}

#[test]
fn dotpath_of_first_match() {
    let t = tree();
    assert_eq!(find_dotpath(Some(&t), "x").as_deref(), Some("root.a.x"));
    assert_eq!(find_dotpath(Some(&t), "beta").as_deref(), Some("root.b"));
    assert_eq!(find_dotpath(Some(&t), "root").as_deref(), Some("root"));
    assert_eq!(find_dotpath(Some(&t), "gamma"), None);
    assert_eq!(find_dotpath(None, "x"), None);
}
