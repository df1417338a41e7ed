use ll::utils::{extract_log_level_from_tags, extract_tags};

#[test]
fn test_tags_extraction() {
    let mut result = String::new();

    let events = vec![
        "some.event#dont_print",
        "#dont_print",
        "another.event#dont_print#trace#dont_save",
        "#blessed#goals",
        "",
        "event #hey    #another tag #hi",
        "fancy.event#debug",
        "fancy.event#info",
        "many.levels #info #debug #trace",
        "many.levels # #debug #trace",
    ];

    for event in events {
        let (key, tags) = extract_tags(event.to_owned());
        let level = extract_log_level_from_tags(&tags);
        result.push_str(&format!(
            "{:.<45}  {:.<15} => {:.<35} | {:?}\n",
            event,
            key,
            tags.to_vec().join(", "),
            level
        ))
    }

    let expected = "\
some.event#dont_print........................  some.event..... => dont_print......................... | None
#dont_print..................................  #dont_print.... => ................................... | None
another.event#dont_print#trace#dont_save.....  another.event.. => dont_print, dont_save, trace....... | Some(Trace)
#blessed#goals...............................  blessed........ => goals.............................. | None
.............................................  ............... => ................................... | None
event #hey    #another tag #hi...............  event.......... => another tag, hey, hi............... | None
fancy.event#debug............................  fancy.event.... => debug.............................. | Some(Debug)
fancy.event#info.............................  fancy.event.... => info............................... | Some(Info)
many.levels #info #debug #trace..............  many.levels.... => debug, info, trace................. | Some(Info)
many.levels # #debug #trace..................  many.levels.... => debug, trace....................... | Some(Debug)
";
    assert_eq!(result, expected);
}
