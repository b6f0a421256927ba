# memory_monitor

TUI hexdump monitor for a live target memory region over a SEGGER J-Link. It reads via background
AHB-AP access (the CPU keeps running), renders the region as a refreshing hexdump in the SEGGER
Memory-window layout, and flashes changed bytes **red** for a configurable window. With an ELF file
it names the symbols of the region.

## Layout

- `src/` is the logic, verified with Verus: options and numbers, the symbol table, change tracking,
  the keys, the J-Link connection as a sequence of calls and answers, the synthetic region, and
  every line of the screen as styled text.
- `app/` is the program around it: the command line, the terminal, the J-Link library, the files.
- `tests/` runs the library on concrete values.

What the library takes from elsewhere without proof is marked `external_body` or
`assume_specification`: the symbols that `object` reads out of an ELF file, how `ratatui` divides an
area and what a block's border leaves of it, and `String::push`.

## Run

```sh
memory_monitor --addr 0x2003F6C0 --len 0x140 --device nRF52840_xxAA --speed 4000 --refresh 200
memory_monitor --mock --addr 0x2003F6C0 --len 0x140 --refresh 100
memory_monitor --elf firmware.elf --addr g_state
```

| flag | default | meaning |
|------|---------|---------|
| `--addr` | (required) | start address (`0x..` hex or decimal) or, with `--elf`, a symbol name |
| `--len` | `256` | bytes to monitor (the symbol size when `--addr` names a sized symbol) |
| `--elf` | — | ELF to load symbols from |
| `--device` | `nRF52840_xxAA` | J-Link device name |
| `--speed` | `4000` | SWD speed (kHz) |
| `--refresh` | `200` | refresh interval (ms) |
| `--highlight` | `500` | red-highlight duration for changed bytes (ms) |
| `--width` | `16` | bytes per row |
| `--word` | `4` | hex grouping: 1, 2 or 4 bytes |
| `--big-endian` | off | interpret words big-endian |
| `--serial` | — | pin probe by USB serial |
| `--lib` | auto | path to `libjlinkarm.so` |
| `--mock` | off | synthetic region, no hardware |

| key | action |
|-----|--------|
| `q` / `Esc` / `Ctrl-C` | quit |
| `space` | pause / resume refresh |
| `s` | toggle the symbol overlay (when `--elf` is given) |
| `+` / `-` | refresh interval ±50 ms |
| `↑` `↓` `PgUp` `PgDn` | scroll |
| `g` / `G` | top / bottom |
| `Ctrl-G` | go to a hex address (`0x` optional) or, with `--elf`, a symbol |
