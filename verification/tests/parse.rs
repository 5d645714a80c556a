use kinship::parse::Parser;
use kinship::parse::ParserError;
use kinship::parse::Relation;

#[test]
fn yeye() {
    let parser = Parser::new("爸爸的爸爸是什么");
    let res = parser.to_appellation().unwrap();

    assert_eq!(res.result().as_str(), "爷爷");
}

#[test]
fn seed_resolves_grandmother() {
    let parser = Parser::new("爸爸的妈妈是什么");
    let res = parser.to_appellation().unwrap();
    assert_eq!(res.result().as_str(), "奶奶");
    assert_eq!(res.to_text(), "爸爸的妈妈是奶奶");
}

#[test]
fn missing_pair_is_no_result() {
    let parser = Parser::new("爸爸的哥哥是什么");
    let res = parser.to_appellation();
    assert!(matches!(res, Err(ParserError::NoResult)));
}

#[test]
fn pure_query_is_idempotent() {
    let first = Parser::new("爸爸的爸爸是什么").to_appellation().unwrap();
    let second = Parser::new("爸爸的爸爸是什么").to_appellation().unwrap();
    assert_eq!(first, second);
    assert_eq!(first.to_text(), second.to_text());
}

#[test]
fn definition_statement_inserts_and_resolves() {
    let mut store = Relation::seed();
    let before = store.len();
    let mut parser = Parser::new("爸爸的弟弟是叔叔");
    let res = parser.parse(&mut store).unwrap();
    assert_eq!(res.result().as_str(), "叔叔");
    assert_eq!(store.len(), before + 1);
    let stored = store.get(&String::from("爸爸"), &String::from("弟弟"));
    assert_eq!(stored, Some(String::from("叔叔")));

    let mut again = Parser::new("爸爸的弟弟是什么");
    let looked_up = again.parse(&mut store).unwrap();
    assert_eq!(looked_up.result().as_str(), "叔叔");
}

#[test]
fn grammar_errors_carry_position_and_message() {
    let mut store = Relation::seed();

    let err = Parser::new("").parse(&mut store).unwrap_err();
    match err {
        ParserError::Lexer { span, message } => {
            assert_eq!(message, "找不到第一个称呼");
            assert_eq!(span.start, 0);
            assert_eq!(span.length, 1);
        }
        other => panic!("unexpected outcome: {:?}", other),
    }

    let err = Parser::new("的爸爸").parse(&mut store).unwrap_err();
    match err {
        ParserError::Lexer { span, message } => {
            assert_eq!(message, "期望一个称呼");
            assert_eq!(span.start, 0);
            assert_eq!(span.length, 3);
        }
        other => panic!("unexpected outcome: {:?}", other),
    }

    let err = Parser::new("爸爸").parse(&mut store).unwrap_err();
    match err {
        ParserError::Lexer { span, message } => {
            assert_eq!(message, "找不到 `的`");
            assert_eq!(span.start, 6);
            assert_eq!(span.length, 1);
        }
        other => panic!("unexpected outcome: {:?}", other),
    }

    let err = Parser::new("爸爸是").parse(&mut store).unwrap_err();
    match err {
        ParserError::Lexer { span, message } => {
            assert_eq!(message, "期望 `的`");
            assert_eq!(span.start, 6);
            assert_eq!(span.length, 3);
        }
        other => panic!("unexpected outcome: {:?}", other),
    }

    let err = Parser::new("爸爸的").parse(&mut store).unwrap_err();
    match err {
        ParserError::Lexer { span, message } => {
            assert_eq!(message, "找不到第二个称呼");
            assert_eq!(span.start, 9);
            assert_eq!(span.length, 1);
        }
        other => panic!("unexpected outcome: {:?}", other),
    }

    let err = Parser::new("爸爸的妈妈").parse(&mut store).unwrap_err();
    match err {
        ParserError::Lexer { span, message } => {
            assert_eq!(message, "找不到 `是`");
            assert_eq!(span.start, 15);
            assert_eq!(span.length, 1);
        }
        other => panic!("unexpected outcome: {:?}", other),
    }

    let err = Parser::new("爸爸的妈妈的").parse(&mut store).unwrap_err();
    match err {
        ParserError::Lexer { span, message } => {
            assert_eq!(message, "期望 `是`");
            assert_eq!(span.start, 15);
            assert_eq!(span.length, 3);
        }
        other => panic!("unexpected outcome: {:?}", other),
    }

    let err = Parser::new("爸爸的妈妈是").parse(&mut store).unwrap_err();
    match err {
        ParserError::Lexer { span, message } => {
            assert_eq!(message, "找不到 `什么`");
            assert_eq!(span.start, 18);
            assert_eq!(span.length, 1);
        }
        other => panic!("unexpected outcome: {:?}", other),
    }

    let err = Parser::new("爸爸的妈妈是的").parse(&mut store).unwrap_err();
    match err {
        ParserError::Lexer { span, message } => {
            assert_eq!(message, "语法错误，期望 `什么`");
            assert_eq!(span.start, 18);
            assert_eq!(span.length, 3);
        }
        other => panic!("unexpected outcome: {:?}", other),
    }

    let err = Parser::new("爸爸的爸爸是什么的").parse(&mut store).unwrap_err();
    match err {
        ParserError::Lexer { span, message } => {
            assert_eq!(message, "语法错误");
            assert_eq!(span.start, 24);
            assert_eq!(span.length, 3);
        }
        other => panic!("unexpected outcome: {:?}", other),
    }
}

#[test]
fn store_insert_overwrites() {
    let mut store = Relation::new();
    assert_eq!(store.len(), 0);
    store.insert(String::from("爸爸"), String::from("妈妈"), String::from("奶奶"));
    assert_eq!(store.len(), 1);
    store.insert(String::from("爸爸"), String::from("妈妈"), String::from("姥姥"));
    assert_eq!(store.len(), 1);
    let got = store.get(&String::from("爸爸"), &String::from("妈妈"));
    assert_eq!(got, Some(String::from("姥姥")));
    let missing = store.get(&String::from("妈妈"), &String::from("爸爸"));
    assert_eq!(missing, None);
}

#[test]
fn store_merge_prefers_other() {
    let mut base = Relation::seed();
    let mut extra = Relation::new();
    extra.insert(String::from("爸爸"), String::from("爸爸"), String::from("祖父"));
    extra.insert(String::from("妈妈"), String::from("妈妈"), String::from("姥姥"));
    base.merge(&extra);
    let got = base.get(&String::from("爸爸"), &String::from("爸爸"));
    assert_eq!(got, Some(String::from("祖父")));
    let got = base.get(&String::from("妈妈"), &String::from("妈妈"));
    assert_eq!(got, Some(String::from("姥姥")));
    let kept = base.get(&String::from("爸爸"), &String::from("妈妈"));
    assert_eq!(kept, Some(String::from("奶奶")));
}
