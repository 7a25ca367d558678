use art_rs::{Art, Leaf, Node};

fn insert_all(art: &mut Art, items: &Vec<&str>) {
    items.iter().for_each(|item| {
        art.insert(Vec::from(item.as_bytes()), Vec::from(item.as_bytes()));
        println!("{}", "=".repeat(10));
    });
}

#[test]
fn test_insert_root() {
    let mut art = Art::new();
    let items = vec!["A"];
    insert_all(&mut art, &items);

    let key = items.first().unwrap().clone();
    let value = items.first().unwrap().clone();
    assert_eq!(
        art.root,
        Node::Leaf(Leaf::new(
            key.as_bytes().to_vec(),
            value.as_bytes().to_vec(),
        ))
    )
}

#[test]
fn test_insert_leaf_replace_value() {
    let mut art = Art::new();
    let items = vec!["A"];
    insert_all(&mut art, &items);

    // update key A with value B
    let key = items.first().unwrap().as_bytes().to_vec();
    let new_value = "B".as_bytes().to_vec();
    art.insert(key.clone(), new_value.clone());

    assert_eq!(art.root, Node::Leaf(Leaf::new(key, new_value)));
}

#[test]
fn test_grow_16() {
    let keys = (65..85).collect::<Vec<u8>>();
    let mut art = Art::new();
    for key in keys.iter() {
        art.insert(vec![*key], vec![*key]);
    }
}

#[test]
fn test_insert_second_leaf() {
    let tfn = |items: &Vec<&str>| {
        let mut art = Art::new();
        insert_all(&mut art, &items);

        for item in items.iter() {
            let res = art.search(&item.as_bytes().to_vec());
            if res.is_some() {
                let _st = std::str::from_utf8(res.unwrap()).unwrap();
            }
        }
    };
    let items = [
        "Congo",
        "Congregationalist",
        "Congregationalist's",
        "Congregationalists",
    ]
    .to_vec();
    tfn(&items);
    let items = ["Ac", "Acropolis", "Acrux"].to_vec();
    tfn(&items);
    let items = ["A", "AMD", "AMDs"].to_vec();
    tfn(&items);
    let items = [
        "daddy",
        "dagger",
        "daguerreotype",
        "daguerreotypes",
        "daguerreotyped",
        "daguerreotype\'s",
        "daguerreotyping",
    ]
    .to_vec();
    tfn(&items);
}

#[test]
fn test_simple_search() {
    let mut art = Art::new();
    let items = vec!["A", "AMD", "AMDs"];
    insert_all(&mut art, &items);

    for item in items {
        let res = art.search(&item.as_bytes().to_vec());
        println!("res = {:#?}", res);
    }
}
