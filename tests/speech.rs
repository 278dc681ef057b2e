use mdplayscript::event::{Event, Tag};
use mdplayscript::speech::{parse_body, parse_heading, parse_speech, trim_start_of_line_head, Direction, Heading, Inline, Speech};

#[test]
fn parse_heading_only_with_character() {
    assert_eq!(parse_heading("A  "), Heading {
        character: "A".into(),
        direction: Direction::new(),
    });
}

#[test]
fn parse_heading_with_direction() {
    assert_eq!(parse_heading("A (running) "), Heading {
        character: "A".into(),
        direction: Direction(vec![Event::Text("running".into())]),
    });
}

#[test]
fn parse_body_only_with_text() {
    let v = vec![Event::Text("Hello!".into()), Event::SoftBreak];
    assert_eq!(parse_body(v), vec![Inline::Event(Event::Text("Hello!".into())), Inline::Event(Event::SoftBreak)]);
}

#[test]
fn parse_body_with_direction() {
    let input = vec![
        Event::Text("Hello! (running) Bye!".into()),
    ];
    let output = vec![
        Inline::Event(Event::Text("Hello! ".into())),
        Inline::Direction(Direction(
                vec![Event::Text("running".into())]
        )),
        Inline::Event(Event::Text(" Bye!".into())),
    ];
    assert_eq!(parse_body(input), output);
}

#[test]
fn parse_body_with_nested_parens() {
    let input = vec![
        Event::Text("Hello! (running (xxx) ) Bye!".into()),
    ];
    let output = vec![
        Inline::Event(Event::Text("Hello! ".into())),
        Inline::Direction(Direction(vec![
                Event::Text("running ".into()),
                Event::Text("(".into()),
                Event::Text("xxx".into()),
                Event::Text(")".into()),
                Event::Text(" ".into()),
        ])),
        Inline::Event(Event::Text(" Bye!".into())),
    ];
    assert_eq!(parse_body(input), output);
}

#[test]
fn parse_speech_of_one_line() {
    let input = vec![
        Event::Text("A (running)> Hello! (exit)".into()),
    ];
    let output = Speech {
        heading: Heading {
            character: "A".into(),
            direction: Direction(vec![Event::Text("running".into())]),
        },
        body: vec![
            Inline::Event(Event::Text("Hello! ".into())),
            Inline::Direction(Direction(vec![
                    Event::Text("exit".into()),
            ])),
        ],
    };
    assert_eq!(parse_speech(input), Some(output));
}

#[test]
fn trim_start_of_body_line_head() {
    let input = vec![
        Inline::Event(Event::Text(" Hello!".into())),
        Inline::Event(Event::SoftBreak),
        Inline::Event(Event::Text("   Ah!".into())),
        Inline::Event(Event::SoftBreak),
        Inline::Event(Event::Text(" Oh!".into())),
        Inline::Direction(Direction(vec![Event::Text("exit".into())])),
        Inline::Event(Event::Text(" zzz".into())),
    ];
    let output = vec![
        Inline::Event(Event::Text("Hello!".into())),
        Inline::Event(Event::SoftBreak),
        Inline::Event(Event::Text("Ah!".into())),
        Inline::Event(Event::SoftBreak),
        Inline::Event(Event::Text("Oh!".into())),
        Inline::Direction(Direction(vec![Event::Text("exit".into())])),
        Inline::Event(Event::Text(" zzz".into())),
    ];
    assert_eq!(trim_start_of_line_head(input), output);
}

#[test]
fn heading_detection_scenarios() {
    let simple = parse_speech(vec![Event::Text("A> Hello".into())]).unwrap();
    assert_eq!(simple.heading, Heading { character: "A".into(), direction: Direction::new() });
    assert_eq!(simple.body, vec![Inline::Event(Event::Text("Hello".into()))]);

    let directed = parse_speech(vec![Event::Text("A (running)> Hello!".into())]).unwrap();
    assert_eq!(directed.heading, Heading {
        character: "A".into(),
        direction: Direction(vec![Event::Text("running".into())]),
    });

    assert_eq!(parse_speech(vec![Event::Text("Hello".into())]), None);
}

#[test]
fn direction_balancing_scenario() {
    let body = parse_body(vec![Event::Text("Hello! (running (hard) ) Bye!".into())]);
    assert_eq!(body, vec![
        Inline::Event(Event::Text("Hello! ".into())),
        Inline::Direction(Direction(vec![
            Event::Text("running ".into()),
            Event::Text("(".into()),
            Event::Text("hard".into()),
            Event::Text(")".into()),
            Event::Text(" ".into()),
        ])),
        Inline::Event(Event::Text(" Bye!".into())),
    ]);
}

#[test]
fn unterminated_paren_is_literal_text() {
    let body = parse_body(vec![Event::Text("a (b".into())]);
    assert_eq!(body, vec![
        Inline::Event(Event::Text("a ".into())),
        Inline::Event(Event::Text("(".into())),
        Inline::Event(Event::Text("b".into())),
    ]);
}

#[test]
fn paren_runs_and_stray_closers_are_literal() {
    let body = parse_body(vec![Event::Text("x (( y) z".into())]);
    assert_eq!(body, vec![
        Inline::Event(Event::Text("x ".into())),
        Inline::Event(Event::Text("((".into())),
        Inline::Event(Event::Text(" y".into())),
        Inline::Event(Event::Text(")".into())),
        Inline::Event(Event::Text(" z".into())),
    ]);
}

#[test]
fn direction_keeps_inline_markup() {
    let body = parse_body(vec![
        Event::Text("a (".into()),
        Event::Start(Tag::Emphasis),
        Event::Text("b".into()),
        Event::End(Tag::Emphasis),
        Event::Text(") c".into()),
    ]);
    assert_eq!(body, vec![
        Inline::Event(Event::Text("a ".into())),
        Inline::Direction(Direction(vec![
            Event::Start(Tag::Emphasis),
            Event::Text("b".into()),
            Event::End(Tag::Emphasis),
        ])),
        Inline::Event(Event::Text(" c".into())),
    ]);
}

#[test]
fn direction_push_string_adds_text() {
    let mut d = Direction::new();
    d.push_string("x".to_owned());
    assert_eq!(d, Direction(vec![Event::Text("x".into())]));
}

#[test]
fn parse_body_keeps_events_after_a_paragraph_end() {
    let body = parse_body(vec![Event::End(Tag::Paragraph), Event::Code("x".into()), Event::Text("a".into())]);
    assert_eq!(body, vec![
        Inline::Event(Event::End(Tag::Paragraph)),
        Inline::Event(Event::Code("x".into())),
        Inline::Event(Event::Text("a".into())),
    ]);
}

#[test]
fn parse_speech_reads_the_whole_line() {
    let sp = parse_speech(vec![
        Event::Text("A> x".into()),
        Event::End(Tag::Paragraph),
        Event::Text(" (y)".into()),
    ]).unwrap();
    assert_eq!(sp.body, vec![
        Inline::Event(Event::Text("x".into())),
        Inline::Event(Event::End(Tag::Paragraph)),
        Inline::Event(Event::Text(" ".into())),
        Inline::Direction(Direction(vec![Event::Text("y".into())])),
    ]);
}
