use adblock::scriptlets::{
    parse_scriptlet_args, Scriptlet, ScriptletError, ScriptletPart, Scriptlets,
};

#[test]
fn parses_empty_scriptlet() {
    let scriptlet = Scriptlet::parse("");
    assert!(scriptlet.parts().is_empty());

    assert_eq!(scriptlet.required_args(), 0);
}

#[test]
fn parses_simple_scriptlet() {
    let js_template = r###"literal {{1}} and {{2}}."###;

    let scriptlet = Scriptlet::parse(&js_template);

    assert_eq!(*scriptlet.parts(), vec![
        ScriptletPart::Literal("literal ".to_owned()),
        ScriptletPart::Argument(1),
        ScriptletPart::Literal(" and ".to_owned()),
        ScriptletPart::Argument(2),
        ScriptletPart::Literal(".".to_owned()),
    ]);

    assert_eq!(scriptlet.required_args(), 2);
}

#[test]
fn parses_simple_scriptlet_without_end_literal() {
    let js_template = r###"literal {{1}} and {{2}}"###;

    let scriptlet = Scriptlet::parse(&js_template);

    assert_eq!(*scriptlet.parts(), vec![
        ScriptletPart::Literal("literal ".to_owned()),
        ScriptletPart::Argument(1),
        ScriptletPart::Literal(" and ".to_owned()),
        ScriptletPart::Argument(2),
    ]);

    assert_eq!(scriptlet.required_args(), 2);
}

#[test]
fn parses_consecutive_scriptlet_arguments() {
    let js_template = r###"Here are lots of arguments: {{1}}{{1}}{{2}}{{1}}{{3}} {{2}}"###;

    let scriptlet = Scriptlet::parse(&js_template);

    assert_eq!(*scriptlet.parts(), vec![
        ScriptletPart::Literal("Here are lots of arguments: ".to_owned()),
        ScriptletPart::Argument(1),
        ScriptletPart::Argument(1),
        ScriptletPart::Argument(2),
        ScriptletPart::Argument(1),
        ScriptletPart::Argument(3),
        ScriptletPart::Literal(" ".to_owned()),
        ScriptletPart::Argument(2),
    ]);

    assert_eq!(scriptlet.required_args(), 3);
}

#[test]
fn parses_scriptlet_starting_with_argument() {
    let js_template = r###"{{1}} argument is at the beginning"###;

    let scriptlet = Scriptlet::parse(&js_template);

    assert_eq!(*scriptlet.parts(), vec![
        ScriptletPart::Argument(1),
        ScriptletPart::Literal(" argument is at the beginning".to_owned()),
    ]);

    assert_eq!(scriptlet.required_args(), 1);
}

#[test]
fn correct_number_of_required_args() {
    let js_template = r###"{{8}} arguments are required to fill the {{8}}th argument!"###;

    let scriptlet = Scriptlet::parse(&js_template);

    assert_eq!(*scriptlet.parts(), vec![
        ScriptletPart::Argument(8),
        ScriptletPart::Literal(" arguments are required to fill the ".to_owned()),
        ScriptletPart::Argument(8),
        ScriptletPart::Literal("th argument!".to_owned()),
    ]);

    assert_eq!(scriptlet.required_args(), 8);
}

#[test]
fn double_digit_handling() {
    let js_template = r###"No scriptlet should require {{10}} arguments!"###;

    let scriptlet = Scriptlet::parse(&js_template);

    assert_eq!(*scriptlet.parts(), vec![
        ScriptletPart::Literal(js_template.to_owned()),
    ]);

    assert_eq!(scriptlet.required_args(), 0);
}

#[test]
fn parses_real_scriptlet() {
    let js_template = r###"(function() {
    const target = '{{1}}';
    if ( target === '' || target === '{{1}}' ) { return; }
    const needle = '{{2}}';
    let reText = '.?';
    if ( needle !== '' && needle !== '{{2}}' ) {
        reText = /^\/.+\/$/.test(needle)
            ? needle.slice(1,-1)
            : needle.replace(/[.*+?^${}()|[\]\\]/g, '\\$&');
    }
    const thisScript = document.currentScript;
    const re = new RegExp(reText);
    const chain = target.split('.');
    let owner = window;
    let prop;
    for (;;) {
        prop = chain.shift();
        if ( chain.length === 0 ) { break; }
        owner = owner[prop];
        if ( owner instanceof Object === false ) { return; }
    }
    const desc = Object.getOwnPropertyDescriptor(owner, prop);
    if ( desc && desc.get !== undefined ) { return; }
    const magic = String.fromCharCode(Date.now() % 26 + 97) +
                  Math.floor(Math.random() * 982451653 + 982451653).toString(36);
    let value = owner[prop];
    const validate = function() {
        const e = document.currentScript;
        if (
            e instanceof HTMLScriptElement &&
            e.src === '' &&
            e !== thisScript &&
            re.test(e.textContent)
        ) {
            throw new ReferenceError(magic);
        }
    };
    Object.defineProperty(owner, prop, {
        get: function() {
            validate();
            return value;
        },
        set: function(a) {
            validate();
            value = a;
        }
    });
    const oe = window.onerror;
    window.onerror = function(msg) {
        if ( typeof msg === 'string' && msg.indexOf(magic) !== -1 ) {
            return true;
        }
        if ( oe instanceof Function ) {
            return oe.apply(this, arguments);
        }
    }.bind();
})();"###.to_owned();

    let scriptlet = Scriptlet::parse(&js_template);

    let expected_parts = vec![
        ScriptletPart::Literal(
            r###"(function() {
    const target = '"###.to_owned()
        ),
        ScriptletPart::Argument(1),
        ScriptletPart::Literal(
            r###"';
    if ( target === '' || target === '"###.to_owned()
        ),
        ScriptletPart::Argument(1),
        ScriptletPart::Literal(
            r###"' ) { return; }
    const needle = '"###.to_owned()
        ),
        ScriptletPart::Argument(2),
        ScriptletPart::Literal(
            r###"';
    let reText = '.?';
    if ( needle !== '' && needle !== '"###.to_owned()
        ),
        ScriptletPart::Argument(2),
        ScriptletPart::Literal(
            r###"' ) {
        reText = /^\/.+\/$/.test(needle)
            ? needle.slice(1,-1)
            : needle.replace(/[.*+?^${}()|[\]\\]/g, '\\$&');
    }
    const thisScript = document.currentScript;
    const re = new RegExp(reText);
    const chain = target.split('.');
    let owner = window;
    let prop;
    for (;;) {
        prop = chain.shift();
        if ( chain.length === 0 ) { break; }
        owner = owner[prop];
        if ( owner instanceof Object === false ) { return; }
    }
    const desc = Object.getOwnPropertyDescriptor(owner, prop);
    if ( desc && desc.get !== undefined ) { return; }
    const magic = String.fromCharCode(Date.now() % 26 + 97) +
                  Math.floor(Math.random() * 982451653 + 982451653).toString(36);
    let value = owner[prop];
    const validate = function() {
        const e = document.currentScript;
        if (
            e instanceof HTMLScriptElement &&
            e.src === '' &&
            e !== thisScript &&
            re.test(e.textContent)
        ) {
            throw new ReferenceError(magic);
        }
    };
    Object.defineProperty(owner, prop, {
        get: function() {
            validate();
            return value;
        },
        set: function(a) {
            validate();
            value = a;
        }
    });
    const oe = window.onerror;
    window.onerror = function(msg) {
        if ( typeof msg === 'string' && msg.indexOf(magic) !== -1 ) {
            return true;
        }
        if ( oe instanceof Function ) {
            return oe.apply(this, arguments);
        }
    }.bind();
})();"###.to_owned()
        ),
    ];

    assert_eq!(*scriptlet.parts(), expected_parts);

    assert_eq!(scriptlet.required_args(), 2);
}

#[test]
fn patches_simple_scriptlet() {
    let scriptlet = Scriptlet::parse(r###"Hello {{1}}! My name is {{2}}."###);
    assert_eq!(scriptlet.required_args(), 2);
    assert_eq!(
        scriptlet.patch(&vec!["world".into(), "adblock-rust".into()]),
        Ok("Hello world! My name is adblock-rust.".to_owned()),
    );
}

#[test]
fn patches_no_args() {
    let scriptlet = Scriptlet::parse("This has no arguments.");
    assert_eq!(scriptlet.required_args(), 0);
    assert_eq!(scriptlet.patch(&vec![]), Ok("This has no arguments.".to_owned()));
}

#[test]
fn patch_too_many_args() {
    let scriptlet = Scriptlet::parse("");
    assert_eq!(scriptlet.required_args(), 0);
    assert_eq!(
        scriptlet.patch(&vec!["a".into()]),
        Err(ScriptletError::WrongNumberOfArguments),
    );
}

#[test]
fn patch_too_few_args() {
    let scriptlet = Scriptlet::parse(r###"{{1}} + {{6}}"###);
    assert_eq!(scriptlet.required_args(), 6);
    assert_eq!(
        scriptlet.patch(&vec!["cookies".into(), "cream".into()]),
        Err(ScriptletError::WrongNumberOfArguments),
    );
}

#[test]
fn parse_argslist() {
    let args = parse_scriptlet_args("scriptlet, hello world, foobar");
    assert_eq!(args, vec!["scriptlet", "hello world", "foobar"]);
}

#[test]
fn parse_argslist_noargs() {
    let args = parse_scriptlet_args("scriptlet");
    assert_eq!(args, vec!["scriptlet"]);
}

#[test]
fn parse_argslist_empty() {
    let args = parse_scriptlet_args("");
    assert_eq!(args, Vec::<String>::new());
}

#[test]
fn parse_argslist_commas() {
    let args = parse_scriptlet_args("scriptletname, one\\, two\\, three, four");
    assert_eq!(args, vec!["scriptletname", "one, two, three", "four"]);
}

#[test]
fn parse_argslist_badchars() {
    let args = parse_scriptlet_args(r##"scriptlet, "; window.location.href = bad.com; , '; alert("you're\, hacked");    ,    \u\r\l(bad.com) "##);
    assert_eq!(args, vec!["scriptlet", "; window.location.href = bad.com;", "; alert(youre, hacked);", "url(bad.com)"]);
}

#[test]
fn get_patched_scriptlets() {
    let mut scriptlets = Scriptlets::default();
    scriptlets.add_scriptlet("greet".to_owned(), Scriptlet::parse("console.log('Hello {{1}}, my name is {{2}}')"));
    scriptlets.add_scriptlet("alert".to_owned(), Scriptlet::parse("alert('{{1}}')"));
    scriptlets.add_scriptlet("blocktimer".to_owned(), Scriptlet::parse("setTimeout(blockAds, {{1}})"));
    scriptlets.add_scriptlet("null".to_owned(), Scriptlet::parse("(()=>{})()"));

    assert_eq!(scriptlets.get_scriptlet("greet, world, adblock-rust"), Ok("console.log('Hello world, my name is adblock-rust')".into()));
    assert_eq!(scriptlets.get_scriptlet("alert, All systems are go!! "), Ok("alert('All systems are go!!')".into()));
    assert_eq!(scriptlets.get_scriptlet("alert, Uh oh\\, check the logs..."), Ok("alert('Uh oh, check the logs...')".into()));
    assert_eq!(scriptlets.get_scriptlet("blocktimer, 3000"), Ok("setTimeout(blockAds, 3000)".into()));
    assert_eq!(scriptlets.get_scriptlet("null"), Ok("(()=>{})()".into()));

    assert_eq!(scriptlets.get_scriptlet("unit-testing"), Err(ScriptletError::NoMatchingScriptlet));
    assert_eq!(scriptlets.get_scriptlet("null, null"), Err(ScriptletError::WrongNumberOfArguments));
    assert_eq!(scriptlets.get_scriptlet("greet, everybody"), Err(ScriptletError::WrongNumberOfArguments));
    assert_eq!(scriptlets.get_scriptlet(""), Err(ScriptletError::MissingScriptletName));
}

#[test]
fn parse_template_file_format() {
    let data = r##"/*******************************************************************************

    This is a bunch of emulated copyright information.

    It is formatted similar to the header at the top of the uBlock Origin scriptlet template file,
    which can be found at the following URL:
    https://github.com/gorhill/uBlock/blob/master/assets/resources/scriptlets.js
*/

// The lines below are skipped by the resource parser. Purpose is clean
// jshinting.
(function() {
// >>>> start of private namespace
'use strict';





/// abort-current-inline-script.js
/// alias acis.js
(function() {
    alert("hi");
})();


/// abort-on-property-read.js
/// alias aopr.js
(function() {
    confirm("Do you want to {{1}}?");
})();

"##;
    let scriptlets = Scriptlets::parse_template_file(data);

    assert_eq!(
        scriptlets.get_scriptlet("aopr, code"),
        Ok("(function() {confirm(\"Do you want to code?\");})();".to_owned()),
    );

    assert_eq!(
        scriptlets.get_scriptlet("abort-on-property-read, write tests"),
        Ok("(function() {confirm(\"Do you want to write tests?\");})();".to_owned()),
    );

    assert_eq!(
        scriptlets.get_scriptlet("abort-on-property-read.js, block advertisements"),
        Ok("(function() {confirm(\"Do you want to block advertisements?\");})();".to_owned()),
    );

    assert_eq!(
        scriptlets.get_scriptlet("acis"),
        Ok("(function() {alert(\"hi\");})();".to_owned()),
    );

    assert_eq!(
        scriptlets.get_scriptlet("acis.js"),
        Ok("(function() {alert(\"hi\");})();".to_owned()),
    );
}

#[test]
fn scriptlet_args_are_split_and_cleaned() {
    assert_eq!(parse_scriptlet_args("a, b\\, c, d"), vec!["a", "b, c", "d"]);
    assert_eq!(parse_scriptlet_args("a,"), vec!["a"]);
    assert_eq!(parse_scriptlet_args(",a"), vec!["", "a"]);
    assert_eq!(parse_scriptlet_args("a,,b"), vec!["a", "", "b"]);
    assert_eq!(parse_scriptlet_args("  "), vec![""]);
    assert_eq!(parse_scriptlet_args("'a\"', \\b\\"), vec!["a", "b"]);
    assert_eq!(parse_scriptlet_args("\u{3000}a b\t"), vec!["a b"]);
}

#[test]
fn zero_is_no_argument_number() {
    let scriptlet = Scriptlet::parse("a{{0}}b{{1}}");
    assert_eq!(*scriptlet.parts(), vec![
        ScriptletPart::Literal("a{{0}}b".to_owned()),
        ScriptletPart::Argument(1),
    ]);
    assert_eq!(scriptlet.required_args(), 1);
}

#[test]
fn placeholders_need_both_braces_and_one_digit() {
    for text in ["{1}}", "{{1}", "{{ 1}}", "{{a}}", "{{}}", "{{12}}", "{ {1}}", "{{٣}}"] {
        let scriptlet = Scriptlet::parse(text);
        assert_eq!(*scriptlet.parts(), vec![ScriptletPart::Literal(text.to_owned())]);
        assert_eq!(scriptlet.required_args(), 0);
    }
    let nested = Scriptlet::parse("{{{9}}}");
    assert_eq!(*nested.parts(), vec![
        ScriptletPart::Literal("{".to_owned()),
        ScriptletPart::Argument(9),
        ScriptletPart::Literal("}".to_owned()),
    ]);
    assert_eq!(nested.required_args(), 9);
}

#[test]
fn templates_are_made_of_valid_parts_only() {
    let made = Scriptlet::from_parts(vec![
        ScriptletPart::Literal("x".to_owned()),
        ScriptletPart::Argument(2),
    ]).unwrap();
    assert_eq!(made.required_args(), 2);
    assert_eq!(
        made.patch(&vec!["a".to_string(), "b".to_string()]),
        Ok("xb".to_owned())
    );
    assert_eq!(Scriptlet::from_parts(vec![]).unwrap().required_args(), 0);
    assert!(Scriptlet::from_parts(vec![ScriptletPart::Argument(0)]).is_none());
    assert!(Scriptlet::from_parts(vec![ScriptletPart::Argument(10)]).is_none());
    assert_eq!(Scriptlet::default().required_args(), 0);
}

#[test]
fn rendered_script_parses_to_itself() {
    let template = Scriptlet::parse("alert('{{1}}', {{2}})");
    let script = template.patch(&vec!["hi".to_string(), "3".to_string()]).unwrap();
    assert_eq!(script, "alert('hi', 3)");
    let again = Scriptlet::parse(&script);
    assert_eq!(*again.parts(), vec![ScriptletPart::Literal(script.clone())]);
    assert_eq!(again.patch(&vec![]), Ok(script));
}

#[test]
fn argument_that_is_a_placeholder_comes_back_as_one() {
    let template = Scriptlet::parse("{{1}}");
    let script = template.patch(&vec!["{{1}}".to_string()]).unwrap();
    assert_eq!(*Scriptlet::parse(&script).parts(), vec![ScriptletPart::Argument(1)]);
}

#[test]
fn catalog_with_alias() {
    let scriptlets = Scriptlets::parse_template_file("/// alert.js\n/// alias al.js\nalert('{{1}}')\n\n");
    assert_eq!(scriptlets.get_scriptlet("al, hi"), Ok("alert('hi')".to_owned()));
    assert_eq!(scriptlets.get_scriptlet("alert.js, hi"), Ok("alert('hi')".to_owned()));
    assert_eq!(scriptlets.get_scriptlet("alert, hi"), Ok("alert('hi')".to_owned()));
    assert_eq!(scriptlets.get_scriptlet("al.js, hi"), Ok("alert('hi')".to_owned()));
    assert_eq!(scriptlets.get_scriptlet("alert"), Err(ScriptletError::WrongNumberOfArguments));
    assert_eq!(scriptlets.get_scriptlet("alert, a, b"), Err(ScriptletError::WrongNumberOfArguments));
    assert_eq!(scriptlets.get_scriptlet("alarm, hi"), Err(ScriptletError::NoMatchingScriptlet));
    assert_eq!(scriptlets.get_scriptlet(""), Err(ScriptletError::MissingScriptletName));
    assert_eq!(scriptlets.get_scriptlet(", hi"), Err(ScriptletError::NoMatchingScriptlet));
}

#[test]
fn catalog_lines() {
    let data = "# comment\n// skipped\nstray text\n/// one.js  \n/// note\n/// other value\n/// alias   uno.js   extra\n# inside\n  body {{1}}  \r\n\ttail\n \t \n/// two\nsecond\n\n/// three\nunclosed";
    let scriptlets = Scriptlets::parse_template_file(data);
    assert_eq!(scriptlets.get_scriptlet("one, x"), Ok("body xtail".to_owned()));
    assert_eq!(scriptlets.get_scriptlet("uno, x"), Ok("body xtail".to_owned()));
    assert_eq!(scriptlets.get_scriptlet("two"), Ok("second".to_owned()));
    assert_eq!(scriptlets.get_scriptlet("three"), Err(ScriptletError::NoMatchingScriptlet));
    assert_eq!(scriptlets.get_scriptlet("other"), Err(ScriptletError::NoMatchingScriptlet));
}

#[test]
fn banner_is_skipped_only_at_the_start() {
    let with_banner = Scriptlets::parse_template_file("/* banner\n/// hidden\nx\n\n*/ \n\n/// shown\ny\n\n");
    assert_eq!(with_banner.get_scriptlet("hidden"), Err(ScriptletError::NoMatchingScriptlet));
    assert_eq!(with_banner.get_scriptlet("shown"), Ok("y".to_owned()));
    let unclosed = Scriptlets::parse_template_file("/* banner */\n/// shown\ny\n\n");
    assert_eq!(unclosed.get_scriptlet("shown"), Ok("y".to_owned()));
    let later = Scriptlets::parse_template_file("\n/* banner\n/// shown\ny\n\n*/\n");
    assert_eq!(later.get_scriptlet("shown"), Ok("y".to_owned()));
    let empty = Scriptlets::parse_template_file("");
    assert_eq!(empty.get_scriptlet("shown"), Err(ScriptletError::NoMatchingScriptlet));
}

#[test]
fn later_template_replaces_earlier_one() {
    let mut scriptlets = Scriptlets::default();
    scriptlets.add_scriptlet("a".to_owned(), Scriptlet::parse("first"));
    scriptlets.add_scriptlet("a".to_owned(), Scriptlet::parse("second {{1}}"));
    assert_eq!(scriptlets.get_scriptlet("a.js, x"), Ok("second x".to_owned()));
    assert_eq!(
        scriptlets.get_scriptlet_for_args(&vec!["a".to_string(), "'y'".to_string()]),
        Ok("second 'y'".to_owned())
    );
    assert_eq!(scriptlets.get_scriptlet_for_args(&vec![]), Err(ScriptletError::MissingScriptletName));
}

#[test]
fn catalog_can_be_read_name_by_name() {
    let mut scriptlets = Scriptlets::default();
    assert!(scriptlets.scriptlet_names().is_empty());
    assert!(scriptlets.alias_names().is_empty());
    scriptlets.add_scriptlet("b".to_owned(), Scriptlet::parse("first {{1}}"));
    scriptlets.add_scriptlet("a".to_owned(), Scriptlet::parse("other"));
    scriptlets.add_scriptlet("b".to_owned(), Scriptlet::parse("second {{2}}"));
    scriptlets.add_alias("x".to_owned(), "a".to_owned());
    scriptlets.add_alias("y".to_owned(), "b".to_owned());
    scriptlets.add_alias("x".to_owned(), "b".to_owned());
    assert_eq!(*scriptlets.scriptlet_names(), vec!["b", "a"]);
    assert_eq!(*scriptlets.alias_names(), vec!["x", "y"]);
    assert_eq!(scriptlets.scriptlet("b").unwrap().required_args(), 2);
    assert_eq!(
        *scriptlets.scriptlet("a").unwrap().parts(),
        vec![ScriptletPart::Literal("other".to_owned())]
    );
    assert!(scriptlets.scriptlet("x").is_none());
    assert!(scriptlets.scriptlet("a.js").is_none());
    assert_eq!(scriptlets.alias("x"), Some(&"b".to_owned()));
    assert_eq!(scriptlets.alias("y"), Some(&"b".to_owned()));
    assert_eq!(scriptlets.alias("a"), None);
    assert_eq!(scriptlets.get_scriptlet("x, 1, 2"), Ok("second 2".to_owned()));
}

#[test]
fn parsed_catalog_lists_its_resources() {
    let scriptlets = Scriptlets::parse_template_file(
        "/// one.js\n/// alias uno.js\nbody\n\n/// two.js\nsecond\n\n/// one.js\nagain\n\n",
    );
    assert_eq!(*scriptlets.scriptlet_names(), vec!["one", "two"]);
    assert_eq!(*scriptlets.alias_names(), vec!["uno"]);
    assert_eq!(scriptlets.alias("uno"), Some(&"one".to_owned()));
    assert_eq!(scriptlets.get_scriptlet("uno"), Ok("again".to_owned()));
}
