use rock::symbols::{split_lines, symbols_file_text, symbols_on_every_exchange};

fn strings(items: &[&str]) -> Vec<String> {
    items.iter().map(|x| x.to_string()).collect()
}

#[test]
fn lines_are_split_as_bufread_does() {
    assert_eq!(split_lines("btcusd\nethbtc\n"), strings(&["btcusd", "ethbtc"]));
    assert_eq!(split_lines("btcusd\r\nethbtc"), strings(&["btcusd", "ethbtc"]));
    assert_eq!(split_lines("a\n\nb\r"), strings(&["a", "", "b\r"]));
    assert_eq!(split_lines(""), Vec::<String>::new());
    assert_eq!(split_lines("\n"), strings(&[""]));
}

#[test]
fn common_symbols_are_on_every_exchange() {
    let lists = vec![strings(&["btcusd", "ethbtc", "ltcusd"]), strings(&["ethbtc", "xrpusd", "btcusd"])];
    assert_eq!(symbols_on_every_exchange(&lists), strings(&["btcusd", "ethbtc"]));
}

#[test]
fn common_symbols_of_one_exchange_are_its_symbols() {
    let lists = vec![strings(&["b", "a", "c"])];
    assert_eq!(symbols_on_every_exchange(&lists), strings(&["b", "a", "c"]));
    assert_eq!(symbols_on_every_exchange(&vec![]), Vec::<String>::new());
}

#[test]
fn common_symbols_count_repeated_listings() {
    // a symbol listed twice by one exchange counts twice
    let lists = vec![strings(&["x", "x"]), strings(&["y"])];
    assert_eq!(symbols_on_every_exchange(&lists), strings(&["x"]));
}

#[test]
fn symbols_file_text_has_one_symbol_per_line() {
    let syms = strings(&["btcusd", "ethbtc"]);
    let text = symbols_file_text(&syms);
    assert_eq!(text, "btcusd\nethbtc\n");
    assert_eq!(split_lines(&text), syms);
    assert_eq!(symbols_file_text(&vec![]), "");
}
