use pixie_rust::recommender::{Recommender, RecommenderNode};
use std::collections::HashSet;

fn parsed_difference(from: &str, to: &str) -> i64 {
    (to.parse::<f32>().unwrap() - from.parse::<f32>().unwrap()) as i64
}

#[test]
fn dead_end_recommendations_map() {
    let mut recommender: Recommender<String> = Recommender::new();

    let obj_0 = String::from("0.0");
    let tag_1 = String::from("1.0");
    let obj_2 = String::from("2.0");

    recommender.add_object(&obj_0);
    recommender.add_tag(&tag_1);
    recommender.add_object(&obj_2);

    recommender.tag_object(&obj_0, &tag_1);
    recommender.tag_object(&obj_2, &tag_1);

    let recommendations = recommender.recommendations_map(
        &RecommenderNode::Object(obj_0.clone()),
        3,
        3,
        |from: &RecommenderNode<String>, to: &RecommenderNode<String>| match (from, to) {
            (RecommenderNode::Tag(tag), RecommenderNode::Object(obj)) => {
                (obj.parse::<f32>().unwrap() - tag.parse::<f32>().unwrap()) as i64
            }
            (RecommenderNode::Object(obj), RecommenderNode::Tag(tag)) => {
                (tag.parse::<f32>().unwrap() - obj.parse::<f32>().unwrap()) as i64
            }
            _ => 0,
        },
    );

    let count_of = |node: &RecommenderNode<String>| {
        recommendations
            .iter()
            .find(|(n, _)| n == node)
            .map(|(_, c)| *c)
    };
    assert_eq!(count_of(&RecommenderNode::Tag(tag_1)).unwrap(), 1);
    assert_eq!(count_of(&RecommenderNode::Object(obj_2)).unwrap(), 1);
}

#[test]
fn basic_recommendations() {
    let mut recommender: Recommender<String> = Recommender::new();

    let obj_0 = String::from("0.0");
    let tag_1 = String::from("1.0");
    let obj_2 = String::from("2.0");

    recommender.add_object(&obj_0);
    recommender.add_tag(&tag_1);
    recommender.add_object(&obj_2);

    recommender.tag_object(&obj_0, &tag_1);
    recommender.tag_object(&obj_2, &tag_1);

    let recommendations = recommender
        .recommendations(
            &vec![RecommenderNode::Object(obj_0.clone())],
            10,
            10,
            |from: &String, to: &String| parsed_difference(from, to),
            |from: &String, to: &String| parsed_difference(from, to),
        )
        .iter()
        .cloned()
        .collect::<HashSet<RecommenderNode<String>>>();

    assert!(!recommendations.contains(&RecommenderNode::Object(obj_0)));
    assert!(recommendations.contains(&RecommenderNode::Tag(tag_1)));
    assert!(recommendations.contains(&RecommenderNode::Object(obj_2)));
}

fn movies() -> Recommender<String> {
    let mut recommender: Recommender<String> = Recommender::new();
    let raid = String::from("The Raid");
    let rocky = String::from("Rocky");
    let python = String::from("Monty Python and The Holy Grail");
    recommender.add_object(&raid);
    recommender.add_object(&rocky);
    recommender.add_object(&python);
    recommender.add_tag("Action");
    recommender.add_tag("Comedy");
    recommender.add_tag("Drama");
    recommender.tag_object(&raid, "Action");
    recommender.tag_object(&rocky, "Action");
    recommender.tag_object(&rocky, "Drama");
    recommender.tag_object(&python, "Comedy");
    recommender
}

#[test]
fn shared_tag_ranks_above_unrelated_object() {
    let recommender = movies();
    let raid = String::from("The Raid");
    let rocky = String::from("Rocky");
    let python = String::from("Monty Python and The Holy Grail");

    let short = recommender.object_recommendations(&vec![raid.clone()], 10, 10, |_: &String, _: &String| 1, |_: &String, _: &String| 1);
    assert!(!short.contains(&python));
    assert!(!short.contains(&raid));

    let long = recommender.object_recommendations(&vec![raid.clone()], 10, 1000, |_: &String, _: &String| 1, |_: &String, _: &String| 1);
    assert_eq!(long, vec![rocky]);
}

#[test]
fn tag_query_reaches_its_objects() {
    let recommender = movies();
    let recommendations = recommender
        .recommendations(
            &vec![RecommenderNode::Tag(String::from("Action"))],
            10,
            10,
            |_: &String, _: &String| 1,
            |_: &String, _: &String| 1,
        )
        .iter()
        .filter(|node| matches!(node, RecommenderNode::Object(_)))
        .cloned()
        .collect::<Vec<RecommenderNode<String>>>();
    assert!(
        recommendations[0] == RecommenderNode::Object(String::from("Rocky"))
            || recommendations[0] == RecommenderNode::Object(String::from("The Raid"))
    );
}

#[test]
fn isolated_object_gets_no_recommendations() {
    let mut recommender: Recommender<String> = Recommender::new();
    recommender.add_object(&String::from("X"));
    recommender.add_object(&String::from("Y"));
    recommender.tag_object(&String::from("Y"), "T");
    let result = recommender.object_recommendations(&vec![String::from("X")], 10, 100, |_: &String, _: &String| 1, |_: &String, _: &String| 1);
    assert!(result.is_empty());
}

#[test]
fn queries_never_come_back() {
    let recommender = movies();
    let queries = vec![
        RecommenderNode::Object(String::from("The Raid")),
        RecommenderNode::Tag(String::from("Drama")),
    ];
    for _ in 0..20 {
        let result = recommender.recommendations(&queries, 6, 60, |_: &String, _: &String| 1, |_: &String, _: &String| 1);
        for q in &queries {
            assert!(!result.contains(q));
        }
        let distinct: HashSet<_> = result.iter().cloned().collect();
        assert_eq!(distinct.len(), result.len());
    }
}

#[test]
fn unknown_query_and_zero_depth_give_nothing() {
    let recommender = movies();
    let unknown = recommender.recommendations(&vec![RecommenderNode::Tag(String::from("Horror"))], 10, 10, |_: &String, _: &String| 1, |_: &String, _: &String| 1);
    assert!(unknown.is_empty());
    let shallow = recommender.recommendations(&vec![RecommenderNode::Tag(String::from("Action"))], 0, 10, |_: &String, _: &String| 1, |_: &String, _: &String| 1);
    assert!(shallow.is_empty());
    let none = recommender.recommendations(&vec![], 10, 10, |_: &String, _: &String| 1, |_: &String, _: &String| 1);
    assert!(none.is_empty());
}

#[test]
fn tally_counts_the_whole_budget() {
    let recommender = movies();
    let tally = recommender.recommendations_map(
        &RecommenderNode::Object(String::from("Rocky")),
        4,
        37,
        |_: &RecommenderNode<String>, _: &RecommenderNode<String>| 1,
    );
    let total = tally.iter().map(|(_, c)| *c).sum::<usize>();
    assert!(37 <= total && total < 37 + 4);
    assert!(tally.iter().any(|(n, _)| *n == RecommenderNode::Object(String::from("Rocky"))));
    let empty = recommender.recommendations_map(
        &RecommenderNode::Object(String::from("Alien")),
        4,
        37,
        |_: &RecommenderNode<String>, _: &RecommenderNode<String>| 1,
    );
    assert!(empty.is_empty());
}

#[test]
fn same_kind_links_weigh_nothing() {
    let recommender = movies();
    let result = recommender.recommendations(
        &vec![RecommenderNode::Object(String::from("Rocky"))],
        10,
        50,
        |_: &String, _: &String| 0,
        |_: &String, _: &String| 5,
    );
    assert!(result.is_empty());
}

#[test]
fn budgets_follow_scaling_factors() {
    let mut recommender = movies();
    recommender.add_object(&String::from("Lonely"));
    let queries = vec![
        RecommenderNode::Object(String::from("The Raid")),
        RecommenderNode::Object(String::from("Rocky")),
        RecommenderNode::Object(String::from("Monty Python and The Holy Grail")),
        RecommenderNode::Object(String::from("Lonely")),
    ];
    let budgets = recommender.seed_budgets(&queries, 100);
    assert_eq!(budgets, vec![33, 33, 33, 0]);
    assert!(budgets.iter().sum::<usize>() <= 100);
    let skewed = recommender.seed_budgets(&vec![queries[0].clone(), RecommenderNode::Tag(String::from("Action"))], 10);
    assert_eq!(skewed, vec![5, 5]);
}

#[test]
fn ranking_of_given_tallies() {
    let recommender = movies();
    let raid = RecommenderNode::Object(String::from("The Raid"));
    let rocky = RecommenderNode::Object(String::from("Rocky"));
    let action = RecommenderNode::Tag(String::from("Action"));
    let drama = RecommenderNode::Tag(String::from("Drama"));
    let one = recommender.rank_tallies(&vec![raid.clone()], &vec![vec![3, 1, 0, 2, 0, 0]]);
    assert_eq!(one, vec![action.clone(), rocky.clone()]);
    let two = recommender.rank_tallies(
        &vec![raid.clone(), drama.clone()],
        &vec![vec![3, 1, 0, 2, 0, 0], vec![0, 1, 0, 0, 0, 4]],
    );
    assert_eq!(two, vec![rocky, action]);
    let none = recommender.rank_tallies(&vec![raid], &vec![vec![0, 0, 0, 0, 0, 0]]);
    assert!(none.is_empty());
}

#[test]
fn smallest_budget_still_walks_whole() {
    let recommender = movies();
    let result = recommender.recommendations(
        &vec![RecommenderNode::Object(String::from("The Raid"))],
        2,
        1,
        |_: &String, _: &String| 1,
        |_: &String, _: &String| 1,
    );
    assert_eq!(result, vec![RecommenderNode::Tag(String::from("Action"))]);
}
