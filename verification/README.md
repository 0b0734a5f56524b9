# jiuyin-unpack

Unpacks the `.package` and `.patch` files of the game: PCK0 v15 containers with
a plain index and one zlib stream per entry. Lua entries hold Lua 5.1 dumps
whose fields are XORed one by one with a key; the key is read from the launcher
without running it, and the dumps come out as standard bytecode.

- `src/` is the library. Every function has a contract that Verus proves; the
  public proof functions named `law_...` state what holds across functions.
- `app/` is the command line program: arguments, files, threads and progress.
- `tests/` runs the library.

The library calls three functions that it does not prove: the GBK decoder of
`encoding_rs`, the zlib decoder of `flate2`, and `str::to_lowercase`. Their
wrappers say what is claimed of them. `String::push` is given its contract too.

```text
jiuyin-unpack <PACKAGE> [OPTIONS]
jiuyin-unpack --all-packages <DIR> [OPTIONS]
jiuyin-unpack --all-patches <DIR> [OPTIONS]

  -o, --output <DIR>     where to write
  -l, --launcher <EXE>   the program that holds the key
      --list             list the entries only
      --no-lua-decrypt   leave Lua dumps as they are
  -j, --jobs <N>         number of threads
```

Packages whose header flags are not 0 have an encrypted index and are refused.
