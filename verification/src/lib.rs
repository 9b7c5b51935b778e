//! Small byte-level helpers of a switch's configuration firmware: register
//! decoding, hex and decimal rendering, number parsing, URL word matching,
//! a search through flash memory and the tokenizer of configuration lines.

mod bits;
mod cmd;
mod flash;
mod html;
mod laws;
mod parse;
mod url;

pub use bits::{gpio_pin_test, isletter, parse_i16, port};
pub use bits::{gpio_bit_set, gpio_byte_index, gpio_spec, is_ascii_letter, parse_i16_spec, port_spec};
pub use html::{byte_to_html, itoa_html, itohex, sfr_data_to_html};
pub use html::{byte_html, dec_html, hex_char, nibbles, sfr_html, strip_zeros};
pub use parse::{atoi_hex, parse_short};
pub use parse::{
    atoi_hex_bytes, atoi_hex_count, atoi_hex_ok, dec_value, digits_from, ends_hex_number,
    hex_nibble, hex_pair, hex_run, hex_stored, is_dec_digit, is_hex_digit, leading_dec_value,
    shift_nibble_right,
};
pub use url::is_url_word_x;
pub use url::{has_nul, is_url_word_end, law_url_word_decided, url_word};
pub use cmd::{cmd_compare, cmd_tokenize, execute_config, CmdArgs, CMD_BUF_SIZE, ERR, N_WORDS};
pub use cmd::{cmd_end, cstr, cstr_len, is_word_start, stored_words, word_is, word_starts};
pub use flash::{flash_find_mark, Flash};
pub use flash::{
    block_count, blocks_read, find_mark_ok, find_mark_result, first_match_from, flash_byte,
    mark_stream, matches_at, rewind_ok, rewinds_ok, search_limit,
};
pub use laws::{
    law_atoi_hex_value, law_byte_html_atoi_hex, law_dec_html_parse_short, law_gpio_pin_is_bit,
    law_hex_digit_roundtrip, law_parse_i16_undoes_cast, law_port_decodes, law_sfr_html_atoi_hex,
    law_sfr_html_is_hex_text, law_tokenize_then_compare, law_url_word_literal,
    law_url_word_percent, law_url_word_spelled, law_hex_digit_bytes, law_atoi_hex_count_needs_end,
    law_parse_short_digits, law_dec_value_digits, law_dec_html_shape, law_word_is_exact,
};
pub use laws::{
    be_bytes, be_value, hex_digit_bytes, hex_digits_value, hex_text, nibble_value, percent_encode,
    port_status_bytes, url_encodes, url_word_at, word_len, word_text,
};
